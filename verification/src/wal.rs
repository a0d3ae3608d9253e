//! WAL records, their hash chain, and the in-memory fenced causal log.

use crate::data_plane::{stage_code, stage_code_spec, CausalEnvelope, CausalEvent, CausalEventView, EventStage};
use crate::digest::{digest_domain, push_bytes, push_u32_be, push_u64_be, single_domain_digest, u32_be, u64_be};
use crate::error::DurabilityError;
use crate::ids::{
    BrainId, EventId, LeaseTerm, LogicalTag, NeuronId, PartitionGeneration, RouteId,
    SchemaVersion, StateDigest, StreamId,
};
use crate::text::message_with_number;
use vstd::prelude::*;
use vstd::string::*;

verus! {

/// Envelope provenance kept with a WAL record so that the admitted event can
/// be reconstructed exactly for replay.
#[derive(Clone, Copy, Debug, PartialEq, Eq, Structural)]
pub struct WalReplayMetadata {
    pub stream_id: StreamId,
    pub producer_sequence: u64,
    pub route: RouteId,
    pub partition_generation: PartitionGeneration,
    pub source: Option<NeuronId>,
    pub target: Option<NeuronId>,
    pub stage: EventStage,
    pub deferred_from_nonconvergence: bool,
}

/// One entry of the causal write-ahead log.
#[derive(Clone, Debug)]
pub struct WalRecord {
    pub sequence: u64,
    pub lease_term: LeaseTerm,
    pub tag: LogicalTag,
    pub event: EventId,
    pub payload: Vec<u8>,
    /// Replay provenance; absent on records written without an envelope.
    pub replay: Option<WalReplayMetadata>,
    /// Opaque channel boundary committed with the event, when there is one.
    pub channel_state: Option<Vec<u8>>,
    /// Digest of the preceding record; the zero digest starts the chain.
    pub previous_digest: StateDigest,
    /// Digest of the record's canonical fields and `previous_digest`.
    pub record_digest: StateDigest,
}

/// Mathematical value of a [`WalRecord`].
pub struct WalRecordView {
    pub sequence: u64,
    pub lease_term: LeaseTerm,
    pub tag: LogicalTag,
    pub event: EventId,
    pub payload: Seq<u8>,
    pub replay: Option<WalReplayMetadata>,
    pub channel_state: Option<Seq<u8>>,
    pub previous_digest: StateDigest,
    pub record_digest: StateDigest,
}

pub open spec fn opt_bytes_view(o: Option<Vec<u8>>) -> Option<Seq<u8>> {
    match o {
        Some(v) => Some(v@),
        None => None,
    }
}

impl View for WalRecord {
    type V = WalRecordView;

    open spec fn view(&self) -> WalRecordView {
        WalRecordView {
            sequence: self.sequence,
            lease_term: self.lease_term,
            tag: self.tag,
            event: self.event,
            payload: self.payload@,
            replay: self.replay,
            channel_state: opt_bytes_view(self.channel_state),
            previous_digest: self.previous_digest,
            record_digest: self.record_digest,
        }
    }
}

/// The views of a vector of records.
pub open spec fn records_view(v: Seq<WalRecord>) -> Seq<WalRecordView> {
    v.map_values(|r: WalRecord| r@)
}

pub open spec fn neuron_raw(o: Option<NeuronId>) -> u64 {
    match o {
        Some(id) => id.0,
        None => 0,
    }
}

/// The committed bytes of replay provenance.
pub open spec fn replay_bytes(m: WalReplayMetadata) -> Seq<u8> {
    u64_be(m.stream_id.0) + u64_be(m.producer_sequence) + u64_be(m.route.0) + u64_be(
        m.partition_generation.0,
    ) + u64_be(neuron_raw(m.source)) + u64_be(neuron_raw(m.target)) + seq![
        stage_code_spec(m.stage),
        if m.deferred_from_nonconvergence { 1u8 } else { 0u8 },
    ]
}

/// The canonical identity bytes that a record digest commits to.
pub open spec fn wal_identity(
    sequence: u64,
    lease_term: LeaseTerm,
    tag: LogicalTag,
    event: EventId,
    payload: Seq<u8>,
    previous_digest: StateDigest,
    replay: Option<WalReplayMetadata>,
    channel_state: Option<Seq<u8>>,
) -> Seq<u8> {
    let head = u64_be(sequence) + u64_be(lease_term.0) + u64_be(tag.tick) + u32_be(tag.microstep)
        + u64_be(event.0) + u64_be(payload.len() as u64) + payload + u64_be(previous_digest.high)
        + u64_be(previous_digest.low);
    let with_replay = match replay {
        Some(m) => head + replay_bytes(m),
        None => head,
    };
    match channel_state {
        Some(c) => with_replay + u64_be(c.len() as u64) + c,
        None => with_replay,
    }
}

/// The domain label of WAL record digests.
pub open spec fn wal_label() -> Seq<u8> {
    "wal-record:v1".spec_bytes()
}

/// The digest a record with these fields must carry.
#[verifier::opaque]
pub open spec fn wal_digest(
    sequence: u64,
    lease_term: LeaseTerm,
    tag: LogicalTag,
    event: EventId,
    payload: Seq<u8>,
    previous_digest: StateDigest,
    replay: Option<WalReplayMetadata>,
    channel_state: Option<Seq<u8>>,
) -> StateDigest {
    single_domain_digest(
        wal_label(),
        wal_identity(sequence, lease_term, tag, event, payload, previous_digest, replay, channel_state),
    )
}

/// The digest recomputed from a record's own fields.
pub open spec fn recomputed_digest(r: WalRecordView) -> StateDigest {
    wal_digest(
        r.sequence,
        r.lease_term,
        r.tag,
        r.event,
        r.payload,
        r.previous_digest,
        r.replay,
        r.channel_state,
    )
}

/// A record is intact after `previous` when it links to `previous` and its
/// digest matches its fields.
pub open spec fn integrity_valid(r: WalRecordView, previous: StateDigest) -> bool {
    r.previous_digest == previous && r.record_digest == recomputed_digest(r)
}

/// The digest that the record at index `i` must link to.
pub open spec fn chain_prev(rs: Seq<WalRecordView>, i: int) -> StateDigest {
    if i <= 0 {
        StateDigest { high: 0, low: 0 }
    } else {
        rs[i - 1].record_digest
    }
}

/// The digest that the next appended record must link to.
pub open spec fn chain_tip(rs: Seq<WalRecordView>) -> StateDigest {
    chain_prev(rs, rs.len() as int)
}

/// The records are numbered by position and form an intact hash chain.
pub open spec fn chain_linked(rs: Seq<WalRecordView>) -> bool {
    forall|i: int|
        0 <= i < rs.len() ==> (#[trigger] rs[i]).sequence == i && integrity_valid(
            rs[i],
            chain_prev(rs, i),
        )
}

/// An intact chain whose every record carries `term`.
#[verifier::opaque]
pub open spec fn chain_valid(rs: Seq<WalRecordView>, term: LeaseTerm) -> bool {
    chain_linked(rs) && forall|i: int| 0 <= i < rs.len() ==> (#[trigger] rs[i]).lease_term == term
}

/// Whether two byte strings are equal.
pub fn bytes_equal(a: &[u8], b: &[u8]) -> (r: bool)
    ensures
        r == (a@ == b@),
{
    if a.len() != b.len() {
        return false;
    }
    let mut i: usize = 0;
    while i < a.len()
        invariant
            i <= a@.len(),
            a@.len() == b@.len(),
            forall|j: int| 0 <= j < i ==> a@[j] == b@[j],
        decreases a@.len() - i,
    {
        if a[i] != b[i] {
            return false;
        }
        i = i + 1;
    }
    assert(a@ =~= b@);
    true
}

/// A fresh copy of a byte vector.
pub fn copy_bytes(a: &[u8]) -> (r: Vec<u8>)
    ensures
        r@ == a@,
{
    let mut out: Vec<u8> = Vec::new();
    push_bytes(&mut out, a);
    assert(out@ =~= a@);
    out
}

fn copy_opt_bytes(a: &Option<Vec<u8>>) -> (r: Option<Vec<u8>>)
    ensures
        opt_bytes_view(r) == opt_bytes_view(*a),
{
    match a {
        Some(v) => Some(copy_bytes(v.as_slice())),
        None => None,
    }
}

fn opt_bytes_equal(a: &Option<Vec<u8>>, b: &Option<Vec<u8>>) -> (r: bool)
    ensures
        r == (opt_bytes_view(*a) == opt_bytes_view(*b)),
{
    match (a, b) {
        (Some(x), Some(y)) => bytes_equal(x.as_slice(), y.as_slice()),
        (None, None) => true,
        _ => false,
    }
}

impl WalRecord {
    /// A field-for-field copy.
    pub fn copy(&self) -> (r: WalRecord)
        ensures
            r@ == self@,
    {
        WalRecord {
            sequence: self.sequence,
            lease_term: self.lease_term,
            tag: self.tag,
            event: self.event,
            payload: copy_bytes(self.payload.as_slice()),
            replay: self.replay,
            channel_state: copy_opt_bytes(&self.channel_state),
            previous_digest: self.previous_digest,
            record_digest: self.record_digest,
        }
    }

    /// Whether two records are equal in every field.
    pub fn same_as(&self, other: &WalRecord) -> (r: bool)
        ensures
            r == (self@ == other@),
    {
        self.sequence == other.sequence && self.lease_term == other.lease_term && self.tag
            == other.tag && self.event == other.event && bytes_equal(
            self.payload.as_slice(),
            other.payload.as_slice(),
        ) && self.replay == other.replay && opt_bytes_equal(
            &self.channel_state,
            &other.channel_state,
        ) && self.previous_digest == other.previous_digest && self.record_digest
            == other.record_digest
    }

    /// The digest of a record with these fields.
    #[verifier::rlimit(40)]
    pub fn digest_for(
        sequence: u64,
        lease_term: LeaseTerm,
        tag: LogicalTag,
        event: EventId,
        payload: &[u8],
        previous_digest: StateDigest,
        replay: Option<WalReplayMetadata>,
        channel_state: Option<&[u8]>,
    ) -> (d: StateDigest)
        ensures
            d == wal_digest(
                sequence,
                lease_term,
                tag,
                event,
                payload@,
                previous_digest,
                replay,
                match channel_state {
                    Some(c) => Some(c@),
                    None => None,
                },
            ),
    {
        let mut identity: Vec<u8> = Vec::new();
        push_u64_be(&mut identity, sequence);
        push_u64_be(&mut identity, lease_term.0);
        push_u64_be(&mut identity, tag.tick);
        push_u32_be(&mut identity, tag.microstep);
        push_u64_be(&mut identity, event.0);
        push_u64_be(&mut identity, payload.len() as u64);
        push_bytes(&mut identity, payload);
        push_u64_be(&mut identity, previous_digest.high);
        push_u64_be(&mut identity, previous_digest.low);
        match replay {
            Some(m) => {
                push_u64_be(&mut identity, m.stream_id.0);
                push_u64_be(&mut identity, m.producer_sequence);
                push_u64_be(&mut identity, m.route.0);
                push_u64_be(&mut identity, m.partition_generation.0);
                let source = match m.source {
                    Some(id) => id.0,
                    None => 0,
                };
                let target = match m.target {
                    Some(id) => id.0,
                    None => 0,
                };
                push_u64_be(&mut identity, source);
                push_u64_be(&mut identity, target);
                identity.push(stage_code(m.stage));
                identity.push(if m.deferred_from_nonconvergence { 1u8 } else { 0u8 });
            },
            None => {},
        }
        match channel_state {
            Some(c) => {
                push_u64_be(&mut identity, c.len() as u64);
                push_bytes(&mut identity, c);
            },
            None => {},
        }
        let ghost cs = match channel_state {
            Some(c) => Some(c@),
            None => None,
        };
        assert(identity@ =~= wal_identity(
            sequence,
            lease_term,
            tag,
            event,
            payload@,
            previous_digest,
            replay,
            cs,
        ));
        let d = digest_domain("wal-record:v1", identity.as_slice());
        assert(d == wal_digest(sequence, lease_term, tag, event, payload@, previous_digest, replay, cs))
            by {
            reveal(wal_digest);
        }
        d
    }

    /// Whether this record links to `previous_digest` and carries the digest
    /// of its own fields.
    pub fn is_integrity_valid(&self, previous_digest: StateDigest) -> (r: bool)
        ensures
            r == integrity_valid(self@, previous_digest),
    {
        if self.previous_digest != previous_digest {
            return false;
        }
        let channel: Option<&[u8]> = match &self.channel_state {
            Some(c) => Some(c.as_slice()),
            None => None,
        };
        let d = WalRecord::digest_for(
            self.sequence,
            self.lease_term,
            self.tag,
            self.event,
            self.payload.as_slice(),
            self.previous_digest,
            self.replay,
            channel,
        );
        self.record_digest == d
    }
}

/// A record-for-record copy of a vector of records.
pub fn copy_records(v: &Vec<WalRecord>) -> (out: Vec<WalRecord>)
    ensures
        records_view(out@) == records_view(v@),
        out@.len() == v@.len(),
{
    let mut out: Vec<WalRecord> = Vec::new();
    let mut i: usize = 0;
    while i < v.len()
        invariant
            i <= v@.len(),
            out@.len() == i,
            records_view(out@) == records_view(v@).subrange(0, i as int),
        decreases v@.len() - i,
    {
        out.push(v[i].copy());
        i = i + 1;
        assert(records_view(out@) =~= records_view(v@).subrange(0, i as int));
    }
    assert(records_view(v@).subrange(0, v@.len() as int) =~= records_view(v@));
    out
}

/// What follows the fixed fields and the payload in a record's identity.
pub open spec fn identity_tail(
    previous_digest: StateDigest,
    replay: Option<WalReplayMetadata>,
    channel_state: Option<Seq<u8>>,
) -> Seq<u8> {
    u64_be(previous_digest.high) + (u64_be(previous_digest.low) + ((match replay {
        Some(m) => replay_bytes(m),
        None => Seq::empty(),
    }) + (match channel_state {
        Some(c) => u64_be(c.len() as u64) + c,
        None => Seq::empty(),
    })))
}

proof fn lemma_assoc(a: Seq<u8>, b: Seq<u8>, c: Seq<u8>)
    ensures
        (a + b) + c == a + (b + c),
{
    assert((a + b) + c =~= a + (b + c));
}

proof fn lemma_identity_split(
    sequence: u64,
    lease_term: LeaseTerm,
    tag: LogicalTag,
    event: EventId,
    payload: Seq<u8>,
    previous_digest: StateDigest,
    replay: Option<WalReplayMetadata>,
    channel_state: Option<Seq<u8>>,
)
    ensures
        wal_identity(sequence, lease_term, tag, event, payload, previous_digest, replay, channel_state) == u64_be(
            sequence,
        ) + (u64_be(lease_term.0) + (u64_be(tag.tick) + (u32_be(tag.microstep) + (u64_be(event.0) + (u64_be(
            payload.len() as u64,
        ) + (payload + identity_tail(previous_digest, replay, channel_state))))))),
{
    let x1 = u64_be(sequence);
    let x2 = u64_be(lease_term.0);
    let x3 = u64_be(tag.tick);
    let x4 = u32_be(tag.microstep);
    let x5 = u64_be(event.0);
    let x6 = u64_be(payload.len() as u64);
    let x7 = payload;
    let x8 = u64_be(previous_digest.high);
    let x9 = u64_be(previous_digest.low);
    let rb: Seq<u8> = match replay {
        Some(m) => replay_bytes(m),
        None => Seq::empty(),
    };
    let ch: Seq<u8> = match channel_state {
        Some(c) => u64_be(c.len() as u64) + c,
        None => Seq::empty(),
    };
    let h2 = x1 + x2;
    let h3 = h2 + x3;
    let h4 = h3 + x4;
    let h5 = h4 + x5;
    let h6 = h5 + x6;
    let h7 = h6 + x7;
    let h8 = h7 + x8;
    let h9 = h8 + x9;
    let with_replay = match replay {
        Some(m) => h9 + replay_bytes(m),
        None => h9,
    };
    assert(with_replay =~= h9 + rb);
    let whole = wal_identity(sequence, lease_term, tag, event, payload, previous_digest, replay, channel_state);
    assert(whole =~= with_replay + ch);
    let r = rb + ch;
    lemma_assoc(h9, rb, ch);
    let t9 = x9 + r;
    lemma_assoc(h8, x9, r);
    let t8 = x8 + t9;
    lemma_assoc(h7, x8, t9);
    let t7 = x7 + t8;
    lemma_assoc(h6, x7, t8);
    let t6 = x6 + t7;
    lemma_assoc(h5, x6, t7);
    let t5 = x5 + t6;
    lemma_assoc(h4, x5, t6);
    let t4 = x4 + t5;
    lemma_assoc(h3, x4, t5);
    let t3 = x3 + t4;
    lemma_assoc(h2, x3, t4);
    let t2 = x2 + t3;
    lemma_assoc(x1, x2, t3);
    assert(identity_tail(previous_digest, replay, channel_state) == t8);
}

/// Equal concatenations with equally long first parts have equal parts.
proof fn lemma_peel(x: Seq<u8>, r1: Seq<u8>, y: Seq<u8>, r2: Seq<u8>)
    requires
        x + r1 == y + r2,
        x.len() == y.len(),
    ensures
        x == y,
        r1 == r2,
{
    assert(x =~= (x + r1).subrange(0, x.len() as int));
    assert(y =~= (y + r2).subrange(0, y.len() as int));
    assert(r1 =~= (x + r1).subrange(x.len() as int, (x + r1).len() as int));
    assert(r2 =~= (y + r2).subrange(y.len() as int, (y + r2).len() as int));
}

/// The digested identity of a WAL record determines the record's sequence,
/// term, tag, event, payload and predecessor digest: two records whose
/// identities are equal agree in all of them, so changing any of these
/// fields after sealing changes what the record digest commits to.
pub proof fn lemma_wal_identity_determines_fields(
    sequence: u64,
    lease_term: LeaseTerm,
    tag: LogicalTag,
    event: EventId,
    payload: Seq<u8>,
    previous_digest: StateDigest,
    replay: Option<WalReplayMetadata>,
    channel_state: Option<Seq<u8>>,
    sequence2: u64,
    lease_term2: LeaseTerm,
    tag2: LogicalTag,
    event2: EventId,
    payload2: Seq<u8>,
    previous_digest2: StateDigest,
    replay2: Option<WalReplayMetadata>,
    channel_state2: Option<Seq<u8>>,
)
    requires
        payload.len() <= u64::MAX,
        payload2.len() <= u64::MAX,
        wal_identity(sequence, lease_term, tag, event, payload, previous_digest, replay, channel_state)
            == wal_identity(sequence2, lease_term2, tag2, event2, payload2, previous_digest2, replay2, channel_state2),
    ensures
        sequence == sequence2,
        lease_term == lease_term2,
        tag == tag2,
        event == event2,
        payload == payload2,
        previous_digest == previous_digest2,
{
    lemma_identity_split(sequence, lease_term, tag, event, payload, previous_digest, replay, channel_state);
    lemma_identity_split(sequence2, lease_term2, tag2, event2, payload2, previous_digest2, replay2, channel_state2);
    let ta = identity_tail(previous_digest, replay, channel_state);
    let tb = identity_tail(previous_digest2, replay2, channel_state2);
    let r6a = payload + ta;
    let r6b = payload2 + tb;
    let r5a = u64_be(payload.len() as u64) + r6a;
    let r5b = u64_be(payload2.len() as u64) + r6b;
    let r4a = u64_be(event.0) + r5a;
    let r4b = u64_be(event2.0) + r5b;
    let r3a = u32_be(tag.microstep) + r4a;
    let r3b = u32_be(tag2.microstep) + r4b;
    let r2a = u64_be(tag.tick) + r3a;
    let r2b = u64_be(tag2.tick) + r3b;
    let r1a = u64_be(lease_term.0) + r2a;
    let r1b = u64_be(lease_term2.0) + r2b;
    lemma_peel(u64_be(sequence), r1a, u64_be(sequence2), r1b);
    crate::digest::lemma_u64_be_injective(sequence, sequence2);
    lemma_peel(u64_be(lease_term.0), r2a, u64_be(lease_term2.0), r2b);
    crate::digest::lemma_u64_be_injective(lease_term.0, lease_term2.0);
    lemma_peel(u64_be(tag.tick), r3a, u64_be(tag2.tick), r3b);
    crate::digest::lemma_u64_be_injective(tag.tick, tag2.tick);
    lemma_peel(u32_be(tag.microstep), r4a, u32_be(tag2.microstep), r4b);
    crate::digest::lemma_u32_be_injective(tag.microstep, tag2.microstep);
    lemma_peel(u64_be(event.0), r5a, u64_be(event2.0), r5b);
    crate::digest::lemma_u64_be_injective(event.0, event2.0);
    lemma_peel(u64_be(payload.len() as u64), r6a, u64_be(payload2.len() as u64), r6b);
    crate::digest::lemma_u64_be_injective(payload.len() as u64, payload2.len() as u64);
    lemma_peel(payload, ta, payload2, tb);
    let tail_a = u64_be(previous_digest.low) + ((match replay {
        Some(m) => replay_bytes(m),
        None => Seq::empty(),
    }) + (match channel_state {
        Some(c) => u64_be(c.len() as u64) + c,
        None => Seq::empty(),
    }));
    let tail_b = u64_be(previous_digest2.low) + ((match replay2 {
        Some(m) => replay_bytes(m),
        None => Seq::empty(),
    }) + (match channel_state2 {
        Some(c) => u64_be(c.len() as u64) + c,
        None => Seq::empty(),
    }));
    lemma_peel(u64_be(previous_digest.high), tail_a, u64_be(previous_digest2.high), tail_b);
    crate::digest::lemma_u64_be_injective(previous_digest.high, previous_digest2.high);
    assert(tail_a.subrange(0, 8) =~= u64_be(previous_digest.low));
    assert(tail_b.subrange(0, 8) =~= u64_be(previous_digest2.low));
    crate::digest::lemma_u64_be_injective(previous_digest.low, previous_digest2.low);
}

/// Equal replay provenance bytes come from provenance that agrees on its
/// stream, producer sequence, route, partition generation, stage and
/// deferral, and on its neuron endpoints as committed (an absent endpoint
/// commits as neuron 0).
pub proof fn lemma_replay_bytes_determine(m: WalReplayMetadata, m2: WalReplayMetadata)
    requires
        replay_bytes(m) == replay_bytes(m2),
    ensures
        m.stream_id == m2.stream_id,
        m.producer_sequence == m2.producer_sequence,
        m.route == m2.route,
        m.partition_generation == m2.partition_generation,
        neuron_raw(m.source) == neuron_raw(m2.source),
        neuron_raw(m.target) == neuron_raw(m2.target),
        m.stage == m2.stage,
        m.deferred_from_nonconvergence == m2.deferred_from_nonconvergence,
{
    let a1 = u64_be(m.stream_id.0);
    let a2 = u64_be(m.producer_sequence);
    let a3 = u64_be(m.route.0);
    let a4 = u64_be(m.partition_generation.0);
    let a5 = u64_be(neuron_raw(m.source));
    let a6 = u64_be(neuron_raw(m.target));
    let a7 = seq![stage_code_spec(m.stage), if m.deferred_from_nonconvergence { 1u8 } else { 0u8 }];
    let b1 = u64_be(m2.stream_id.0);
    let b2 = u64_be(m2.producer_sequence);
    let b3 = u64_be(m2.route.0);
    let b4 = u64_be(m2.partition_generation.0);
    let b5 = u64_be(neuron_raw(m2.source));
    let b6 = u64_be(neuron_raw(m2.target));
    let b7 = seq![stage_code_spec(m2.stage), if m2.deferred_from_nonconvergence { 1u8 } else { 0u8 }];
    lemma_peel(a1 + a2 + a3 + a4 + a5 + a6, a7, b1 + b2 + b3 + b4 + b5 + b6, b7);
    lemma_peel(a1 + a2 + a3 + a4 + a5, a6, b1 + b2 + b3 + b4 + b5, b6);
    lemma_peel(a1 + a2 + a3 + a4, a5, b1 + b2 + b3 + b4, b5);
    lemma_peel(a1 + a2 + a3, a4, b1 + b2 + b3, b4);
    lemma_peel(a1 + a2, a3, b1 + b2, b3);
    lemma_peel(a1, a2, b1, b2);
    crate::digest::lemma_u64_be_injective(m.stream_id.0, m2.stream_id.0);
    crate::digest::lemma_u64_be_injective(m.producer_sequence, m2.producer_sequence);
    crate::digest::lemma_u64_be_injective(m.route.0, m2.route.0);
    crate::digest::lemma_u64_be_injective(m.partition_generation.0, m2.partition_generation.0);
    crate::digest::lemma_u64_be_injective(neuron_raw(m.source), neuron_raw(m2.source));
    crate::digest::lemma_u64_be_injective(neuron_raw(m.target), neuron_raw(m2.target));
    assert(a7[0] == b7[0] && a7[1] == b7[1]);
    assert(m.stage == m2.stage);
}

/// The digested identity of a WAL record commits to its replay provenance
/// and its channel boundary: for records equal in every other field, equal
/// identities with provenance on both sides have provenance that commits
/// alike, and equal identities with the same provenance and a channel
/// boundary on both sides have the same boundary.
pub proof fn lemma_wal_identity_commits_to_provenance(
    sequence: u64,
    lease_term: LeaseTerm,
    tag: LogicalTag,
    event: EventId,
    payload: Seq<u8>,
    previous_digest: StateDigest,
    replay: Option<WalReplayMetadata>,
    channel_state: Option<Seq<u8>>,
    replay2: Option<WalReplayMetadata>,
    channel_state2: Option<Seq<u8>>,
)
    requires
        wal_identity(sequence, lease_term, tag, event, payload, previous_digest, replay, channel_state)
            == wal_identity(sequence, lease_term, tag, event, payload, previous_digest, replay2, channel_state2),
    ensures
        replay is Some && replay2 is Some && channel_state == channel_state2 ==> replay_bytes(replay->0)
            == replay_bytes(replay2->0),
        replay == replay2 && channel_state is Some && channel_state2 is Some && channel_state->0.len() <= u64::MAX
            && channel_state2->0.len() <= u64::MAX ==> channel_state == channel_state2,
{
    lemma_identity_split(sequence, lease_term, tag, event, payload, previous_digest, replay, channel_state);
    lemma_identity_split(sequence, lease_term, tag, event, payload, previous_digest, replay2, channel_state2);
    let ta = identity_tail(previous_digest, replay, channel_state);
    let tb = identity_tail(previous_digest, replay2, channel_state2);
    let r5a = u64_be(payload.len() as u64) + (payload + ta);
    let r5b = u64_be(payload.len() as u64) + (payload + tb);
    let r4a = u64_be(event.0) + r5a;
    let r4b = u64_be(event.0) + r5b;
    let r3a = u32_be(tag.microstep) + r4a;
    let r3b = u32_be(tag.microstep) + r4b;
    let r2a = u64_be(tag.tick) + r3a;
    let r2b = u64_be(tag.tick) + r3b;
    let r1a = u64_be(lease_term.0) + r2a;
    let r1b = u64_be(lease_term.0) + r2b;
    lemma_peel(u64_be(sequence), r1a, u64_be(sequence), r1b);
    lemma_peel(u64_be(lease_term.0), r2a, u64_be(lease_term.0), r2b);
    lemma_peel(u64_be(tag.tick), r3a, u64_be(tag.tick), r3b);
    lemma_peel(u32_be(tag.microstep), r4a, u32_be(tag.microstep), r4b);
    lemma_peel(u64_be(event.0), r5a, u64_be(event.0), r5b);
    lemma_peel(u64_be(payload.len() as u64), payload + ta, u64_be(payload.len() as u64), payload + tb);
    lemma_peel(payload, ta, payload, tb);
    let rb: Seq<u8> = match replay {
        Some(m) => replay_bytes(m),
        None => Seq::empty(),
    };
    let rb2: Seq<u8> = match replay2 {
        Some(m) => replay_bytes(m),
        None => Seq::empty(),
    };
    let ch: Seq<u8> = match channel_state {
        Some(c) => u64_be(c.len() as u64) + c,
        None => Seq::empty(),
    };
    let ch2: Seq<u8> = match channel_state2 {
        Some(c) => u64_be(c.len() as u64) + c,
        None => Seq::empty(),
    };
    let lo = u64_be(previous_digest.low);
    assert(ta == u64_be(previous_digest.high) + (lo + (rb + ch)));
    assert(tb == u64_be(previous_digest.high) + (lo + (rb2 + ch2)));
    lemma_peel(u64_be(previous_digest.high), lo + (rb + ch), u64_be(previous_digest.high), lo + (rb2 + ch2));
    lemma_peel(lo, rb + ch, lo, rb2 + ch2);
    if replay is Some && replay2 is Some && channel_state == channel_state2 {
        lemma_peel(rb, ch, rb2, ch2);
    }
    if replay == replay2 && channel_state is Some && channel_state2 is Some && channel_state->0.len() <= u64::MAX
        && channel_state2->0.len() <= u64::MAX {
        let c = channel_state->0;
        let c2 = channel_state2->0;
        lemma_peel(rb, ch, rb2, ch2);
        lemma_peel(u64_be(c.len() as u64), c, u64_be(c2.len() as u64), c2);
    }
}

} // verus!
