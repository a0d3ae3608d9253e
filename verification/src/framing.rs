//! Canonical byte framing of durable state, used as digest material.

use crate::digest::{push_bytes, push_u32_be, push_u64_be, u32_be, u64_be};
use crate::ids::{LogicalTag, NeuronId, StateDigest};
use crate::peripheral::PeripheralCursor;
use crate::receipts::DurableReceipt;
use crate::wal::{records_view, WalRecord, WalRecordView, WalReplayMetadata};
use crate::data_plane::{stage_code, stage_code_spec};
use vstd::prelude::*;

verus! {

/// A byte string preceded by its length.
pub open spec fn bytes_frame(b: Seq<u8>) -> Seq<u8> {
    u64_be(b.len() as u64) + b
}

pub open spec fn opt_u64_frame(o: Option<u64>) -> Seq<u8> {
    match o {
        None => seq![0u8],
        Some(x) => seq![1u8] + u64_be(x),
    }
}

pub open spec fn opt_bytes_frame(o: Option<Seq<u8>>) -> Seq<u8> {
    match o {
        None => seq![0u8],
        Some(b) => seq![1u8] + bytes_frame(b),
    }
}

pub open spec fn replay_frame(o: Option<WalReplayMetadata>) -> Seq<u8> {
    match o {
        None => seq![0u8],
        Some(m) => seq![1u8] + replay_fields_frame(m),
    }
}

/// A neuron endpoint of replay provenance, absent or present.
pub open spec fn neuron_opt(o: Option<NeuronId>) -> Option<u64> {
    match o {
        Some(id) => Some(id.0),
        None => None,
    }
}

/// The framing of replay provenance, each optional neuron framed with its presence.
pub open spec fn replay_fields_frame(m: WalReplayMetadata) -> Seq<u8> {
    u64_be(m.stream_id.0) + u64_be(m.producer_sequence) + u64_be(m.route.0) + u64_be(m.partition_generation.0)
        + opt_u64_frame(neuron_opt(m.source)) + opt_u64_frame(neuron_opt(m.target)) + seq![
        stage_code_spec(m.stage),
        if m.deferred_from_nonconvergence { 1u8 } else { 0u8 },
    ]
}

pub open spec fn tag_frame(t: LogicalTag) -> Seq<u8> {
    u64_be(t.tick) + u32_be(t.microstep)
}

pub open spec fn digest_frame(d: StateDigest) -> Seq<u8> {
    u64_be(d.high) + u64_be(d.low)
}

/// The framing of one WAL record.
pub open spec fn record_frame(r: WalRecordView) -> Seq<u8> {
    u64_be(r.sequence) + u64_be(r.lease_term.0) + tag_frame(r.tag) + u64_be(r.event.0)
        + bytes_frame(r.payload) + replay_frame(r.replay) + opt_bytes_frame(r.channel_state)
        + digest_frame(r.previous_digest) + digest_frame(r.record_digest)
}

/// The framings of records, in order.
pub open spec fn records_frame(rs: Seq<WalRecordView>) -> Seq<u8>
    decreases rs.len(),
{
    if rs.len() == 0 {
        Seq::empty()
    } else {
        records_frame(rs.drop_last()) + record_frame(rs.last())
    }
}

pub open spec fn receipt_frame(r: DurableReceipt) -> Seq<u8> {
    u64_be(r.stream_id.0) + u64_be(r.sequence) + u64_be(r.event_id.0) + u64_be(r.lease_term.0)
        + u64_be(r.partition_generation.0) + tag_frame(r.tag) + digest_frame(r.payload_digest)
}

pub open spec fn receipts_frame(rs: Seq<DurableReceipt>) -> Seq<u8>
    decreases rs.len(),
{
    if rs.len() == 0 {
        Seq::empty()
    } else {
        receipts_frame(rs.drop_last()) + receipt_frame(rs.last())
    }
}

pub open spec fn cursor_frame(c: PeripheralCursor) -> Seq<u8> {
    u64_be(c.channel) + u64_be(c.position) + u64_be(c.lease_term.0)
}

pub open spec fn cursors_frame(cs: Seq<PeripheralCursor>) -> Seq<u8>
    decreases cs.len(),
{
    if cs.len() == 0 {
        Seq::empty()
    } else {
        cursors_frame(cs.drop_last()) + cursor_frame(cs.last())
    }
}

pub fn push_tag(out: &mut Vec<u8>, t: LogicalTag)
    ensures
        final(out)@ == old(out)@ + tag_frame(t),
{
    push_u64_be(out, t.tick);
    push_u32_be(out, t.microstep);
    assert(out@ =~= old(out)@ + tag_frame(t));
}

pub fn push_digest(out: &mut Vec<u8>, d: StateDigest)
    ensures
        final(out)@ == old(out)@ + digest_frame(d),
{
    push_u64_be(out, d.high);
    push_u64_be(out, d.low);
    assert(out@ =~= old(out)@ + digest_frame(d));
}

pub fn push_bytes_frame(out: &mut Vec<u8>, b: &[u8])
    ensures
        final(out)@ == old(out)@ + bytes_frame(b@),
{
    push_u64_be(out, b.len() as u64);
    push_bytes(out, b);
    assert(out@ =~= old(out)@ + bytes_frame(b@));
}

pub fn push_opt_u64(out: &mut Vec<u8>, o: Option<u64>)
    ensures
        final(out)@ == old(out)@ + opt_u64_frame(o),
{
    match o {
        None => {
            out.push(0u8);
        },
        Some(x) => {
            out.push(1u8);
            push_u64_be(out, x);
        },
    }
    assert(out@ =~= old(out)@ + opt_u64_frame(o));
}

fn push_replay(out: &mut Vec<u8>, o: Option<WalReplayMetadata>)
    ensures
        final(out)@ == old(out)@ + replay_frame(o),
{
    match o {
        None => {
            out.push(0u8);
        },
        Some(m) => {
            out.push(1u8);
            push_u64_be(out, m.stream_id.0);
            push_u64_be(out, m.producer_sequence);
            push_u64_be(out, m.route.0);
            push_u64_be(out, m.partition_generation.0);
            let source: Option<u64> = match m.source {
                Some(id) => Some(id.0),
                None => None,
            };
            let target: Option<u64> = match m.target {
                Some(id) => Some(id.0),
                None => None,
            };
            push_opt_u64(out, source);
            push_opt_u64(out, target);
            out.push(stage_code(m.stage));
            out.push(if m.deferred_from_nonconvergence { 1u8 } else { 0u8 });
        },
    }
    assert(out@ =~= old(out)@ + replay_frame(o));
}

pub fn push_record(out: &mut Vec<u8>, r: &WalRecord)
    ensures
        final(out)@ == old(out)@ + record_frame(r@),
{
    push_u64_be(out, r.sequence);
    push_u64_be(out, r.lease_term.0);
    push_tag(out, r.tag);
    push_u64_be(out, r.event.0);
    push_bytes_frame(out, r.payload.as_slice());
    push_replay(out, r.replay);
    match &r.channel_state {
        None => {
            out.push(0u8);
        },
        Some(c) => {
            out.push(1u8);
            push_bytes_frame(out, c.as_slice());
        },
    }
    push_digest(out, r.previous_digest);
    push_digest(out, r.record_digest);
    assert(out@ =~= old(out)@ + record_frame(r@));
}

pub fn push_records(out: &mut Vec<u8>, rs: &Vec<WalRecord>)
    ensures
        final(out)@ == old(out)@ + records_frame(records_view(rs@)),
{
    let ghost start = out@;
    let ghost all = records_view(rs@);
    let mut i: usize = 0;
    assert(all.take(0) =~= Seq::<WalRecordView>::empty());
    assert(out@ =~= start + records_frame(all.take(0)));
    while i < rs.len()
        invariant
            i <= rs@.len(),
            all == records_view(rs@),
            out@ == start + records_frame(all.take(i as int)),
        decreases rs@.len() - i,
    {
        push_record(out, &rs[i]);
        assert(all.take(i + 1).drop_last() =~= all.take(i as int));
        assert(all.take(i + 1).last() == rs@[i as int]@);
        i = i + 1;
        assert(out@ =~= start + records_frame(all.take(i as int)));
    }
    assert(all.take(rs@.len() as int) =~= all);
}

pub fn push_receipts(out: &mut Vec<u8>, rs: &Vec<DurableReceipt>)
    ensures
        final(out)@ == old(out)@ + receipts_frame(rs@),
{
    let ghost start = out@;
    let mut i: usize = 0;
    assert(rs@.take(0) =~= Seq::<DurableReceipt>::empty());
    assert(out@ =~= start + receipts_frame(rs@.take(0)));
    while i < rs.len()
        invariant
            i <= rs@.len(),
            out@ == start + receipts_frame(rs@.take(i as int)),
        decreases rs@.len() - i,
    {
        let r = rs[i];
        push_u64_be(out, r.stream_id.0);
        push_u64_be(out, r.sequence);
        push_u64_be(out, r.event_id.0);
        push_u64_be(out, r.lease_term.0);
        push_u64_be(out, r.partition_generation.0);
        push_tag(out, r.tag);
        push_digest(out, r.payload_digest);
        assert(rs@.take(i + 1).drop_last() =~= rs@.take(i as int));
        i = i + 1;
        assert(out@ =~= start + receipts_frame(rs@.take(i as int)));
    }
    assert(rs@.take(rs@.len() as int) =~= rs@);
}

pub fn push_cursors(out: &mut Vec<u8>, cs: &Vec<PeripheralCursor>)
    ensures
        final(out)@ == old(out)@ + cursors_frame(cs@),
{
    let ghost start = out@;
    let mut i: usize = 0;
    assert(cs@.take(0) =~= Seq::<PeripheralCursor>::empty());
    assert(out@ =~= start + cursors_frame(cs@.take(0)));
    while i < cs.len()
        invariant
            i <= cs@.len(),
            out@ == start + cursors_frame(cs@.take(i as int)),
        decreases cs@.len() - i,
    {
        let c = cs[i];
        push_u64_be(out, c.channel);
        push_u64_be(out, c.position);
        push_u64_be(out, c.lease_term.0);
        assert(cs@.take(i + 1).drop_last() =~= cs@.take(i as int));
        i = i + 1;
        assert(out@ =~= start + cursors_frame(cs@.take(i as int)));
    }
    assert(cs@.take(cs@.len() as int) =~= cs@);
}

/// Equal concatenations whose first parts are equally long have equal parts.
pub proof fn lemma_split_equal(x: Seq<u8>, r1: Seq<u8>, y: Seq<u8>, r2: Seq<u8>)
    requires
        x + r1 == y + r2,
        x.len() == y.len(),
    ensures
        x == y,
        r1 == r2,
{
    assert(x =~= (x + r1).subrange(0, x.len() as int));
    assert(y =~= (y + r2).subrange(0, y.len() as int));
    assert(r1 =~= (x + r1).subrange(x.len() as int, (x + r1).len() as int));
    assert(r2 =~= (y + r2).subrange(y.len() as int, (y + r2).len() as int));
}

pub proof fn lemma_concat_assoc(a: Seq<u8>, b: Seq<u8>, c: Seq<u8>)
    ensures
        (a + b) + c == a + (b + c),
{
    assert((a + b) + c =~= a + (b + c));
}

/// A receipt's framing has a fixed width.
pub proof fn lemma_receipt_frame_len(r: DurableReceipt)
    ensures
        receipt_frame(r).len() == 68,
{
}

/// The framing of receipts is as long as their number times the width.
pub proof fn lemma_receipts_frame_len(rs: Seq<DurableReceipt>)
    ensures
        receipts_frame(rs).len() == 68 * rs.len(),
    decreases rs.len(),
{
    if rs.len() > 0 {
        lemma_receipts_frame_len(rs.drop_last());
        lemma_receipt_frame_len(rs.last());
    }
}

/// A receipt's framing determines the receipt.
pub proof fn lemma_receipt_frame_injective(a: DurableReceipt, b: DurableReceipt)
    requires
        receipt_frame(a) == receipt_frame(b),
    ensures
        a == b,
{
    let fa = receipt_frame(a);
    let fb = receipt_frame(b);
    assert(fa.subrange(0, 8) =~= u64_be(a.stream_id.0));
    assert(fb.subrange(0, 8) =~= u64_be(b.stream_id.0));
    crate::digest::lemma_u64_be_injective(a.stream_id.0, b.stream_id.0);
    assert(fa.subrange(8, 16) =~= u64_be(a.sequence));
    assert(fb.subrange(8, 16) =~= u64_be(b.sequence));
    crate::digest::lemma_u64_be_injective(a.sequence, b.sequence);
    assert(fa.subrange(16, 24) =~= u64_be(a.event_id.0));
    assert(fb.subrange(16, 24) =~= u64_be(b.event_id.0));
    crate::digest::lemma_u64_be_injective(a.event_id.0, b.event_id.0);
    assert(fa.subrange(24, 32) =~= u64_be(a.lease_term.0));
    assert(fb.subrange(24, 32) =~= u64_be(b.lease_term.0));
    crate::digest::lemma_u64_be_injective(a.lease_term.0, b.lease_term.0);
    assert(fa.subrange(32, 40) =~= u64_be(a.partition_generation.0));
    assert(fb.subrange(32, 40) =~= u64_be(b.partition_generation.0));
    crate::digest::lemma_u64_be_injective(a.partition_generation.0, b.partition_generation.0);
    assert(fa.subrange(40, 48) =~= u64_be(a.tag.tick));
    assert(fb.subrange(40, 48) =~= u64_be(b.tag.tick));
    crate::digest::lemma_u64_be_injective(a.tag.tick, b.tag.tick);
    assert(fa.subrange(48, 52) =~= u32_be(a.tag.microstep));
    assert(fb.subrange(48, 52) =~= u32_be(b.tag.microstep));
    crate::digest::lemma_u32_be_injective(a.tag.microstep, b.tag.microstep);
    assert(fa.subrange(52, 60) =~= u64_be(a.payload_digest.high));
    assert(fb.subrange(52, 60) =~= u64_be(b.payload_digest.high));
    crate::digest::lemma_u64_be_injective(a.payload_digest.high, b.payload_digest.high);
    assert(fa.subrange(60, 68) =~= u64_be(a.payload_digest.low));
    assert(fb.subrange(60, 68) =~= u64_be(b.payload_digest.low));
    crate::digest::lemma_u64_be_injective(a.payload_digest.low, b.payload_digest.low);
}

/// Framings of equally many receipts are equal only for equal receipts.
pub proof fn lemma_receipts_frame_injective(a: Seq<DurableReceipt>, b: Seq<DurableReceipt>)
    requires
        a.len() == b.len(),
        receipts_frame(a) == receipts_frame(b),
    ensures
        a == b,
    decreases a.len(),
{
    if a.len() > 0 {
        lemma_receipts_frame_len(a.drop_last());
        lemma_receipts_frame_len(b.drop_last());
        lemma_split_equal(
            receipts_frame(a.drop_last()),
            receipt_frame(a.last()),
            receipts_frame(b.drop_last()),
            receipt_frame(b.last()),
        );
        lemma_receipt_frame_injective(a.last(), b.last());
        lemma_receipts_frame_injective(a.drop_last(), b.drop_last());
        assert(a =~= a.drop_last().push(a.last()));
        assert(b =~= b.drop_last().push(b.last()));
    } else {
        assert(a =~= b);
    }
}

} // verus!
