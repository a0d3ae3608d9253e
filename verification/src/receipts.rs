//! Durable acknowledgements of accepted stream items, deduplicated by stream
//! position and by event identity.

use crate::data_plane::{CausalEvent, CausalEventView};
use crate::digest::{digest_domain, single_domain_digest};
use crate::error::DurabilityError;
use crate::ids::{EventId, LeaseTerm, LogicalTag, PartitionGeneration, StateDigest, StreamId};
use crate::text::message_with_number;
use vstd::prelude::*;
use vstd::string::*;

verus! {

/// A durable acknowledgement for one accepted causal stream item.
#[derive(Clone, Copy, Debug, PartialEq, Eq, Structural)]
pub struct DurableReceipt {
    pub stream_id: StreamId,
    pub sequence: u64,
    pub event_id: EventId,
    pub lease_term: LeaseTerm,
    pub partition_generation: PartitionGeneration,
    pub tag: LogicalTag,
    pub payload_digest: StateDigest,
}

/// Whether a receipt was new or an exact repeat.
#[derive(Clone, Copy, Debug, PartialEq, Eq, Structural)]
pub enum ReceiptOutcome {
    New,
    Duplicate,
}

/// Receipts are ordered by stream, then by sequence within the stream.
pub open spec fn key_lt(a: DurableReceipt, b: DurableReceipt) -> bool {
    a.stream_id.0 < b.stream_id.0 || (a.stream_id.0 == b.stream_id.0 && a.sequence < b.sequence)
}

/// Strictly increasing by key: keys are unique and ordered.
pub open spec fn sorted_by_key(rs: Seq<DurableReceipt>) -> bool {
    forall|i: int, j: int| 0 <= i < j < rs.len() ==> key_lt(#[trigger] rs[i], #[trigger] rs[j])
}

/// No event is acknowledged twice.
pub open spec fn events_unique(rs: Seq<DurableReceipt>) -> bool {
    forall|i: int, j: int|
        0 <= i < j < rs.len() ==> (#[trigger] rs[i]).event_id != (#[trigger] rs[j]).event_id
}

/// Some receipt sits at this stream position.
pub open spec fn has_key(rs: Seq<DurableReceipt>, stream: StreamId, sequence: u64) -> bool {
    exists|i: int| 0 <= i < rs.len() && (#[trigger] rs[i]).stream_id == stream && rs[i].sequence == sequence
}

/// Some receipt acknowledges this event.
pub open spec fn has_event(rs: Seq<DurableReceipt>, event: EventId) -> bool {
    exists|i: int| 0 <= i < rs.len() && (#[trigger] rs[i]).event_id == event
}

/// `out` is `rs` with `r` inserted at the place its key orders it.
pub open spec fn inserted_in_order(rs: Seq<DurableReceipt>, r: DurableReceipt, out: Seq<DurableReceipt>) -> bool {
    exists|k: int|
        0 <= k <= rs.len() && out == rs.insert(k, r) && (forall|i: int|
            0 <= i < k ==> key_lt(#[trigger] rs[i], r)) && (forall|i: int|
            k <= i < rs.len() ==> key_lt(r, #[trigger] rs[i]))
}

/// The receipt that acknowledges `event` at a stream position.
pub open spec fn event_receipt(
    stream_id: StreamId,
    sequence: u64,
    event: CausalEventView,
    lease_term: LeaseTerm,
    partition_generation: PartitionGeneration,
) -> DurableReceipt {
    DurableReceipt {
        stream_id,
        sequence,
        event_id: event.id,
        lease_term,
        partition_generation,
        tag: event.key.tag,
        payload_digest: single_domain_digest("causal-payload".spec_bytes(), event.payload),
    }
}

fn key_below(a: &DurableReceipt, b: &DurableReceipt) -> (r: bool)
    ensures
        r == key_lt(*a, *b),
{
    a.stream_id.0 < b.stream_id.0 || (a.stream_id.0 == b.stream_id.0 && a.sequence < b.sequence)
}

/// The next expected sequence of `stream` after the receipts `rs`: one past
/// the highest acknowledged sequence (saturating), or zero.
pub open spec fn stream_next(rs: Seq<DurableReceipt>, stream: StreamId) -> u64
    decreases rs.len(),
{
    if rs.len() == 0 {
        0
    } else {
        let rest = stream_next(rs.drop_last(), stream);
        let r = rs.last();
        if r.stream_id == stream {
            let n: u64 = if r.sequence == u64::MAX { u64::MAX } else { (r.sequence + 1) as u64 };
            if n > rest {
                n
            } else {
                rest
            }
        } else {
            rest
        }
    }
}

/// A receipt re-issued under `term`.
pub open spec fn receipt_with_term(r: DurableReceipt, term: LeaseTerm) -> DurableReceipt {
    DurableReceipt { lease_term: term, ..r }
}

/// The set of durable receipts of one shard, ordered by stream position.
#[derive(Clone, Debug)]
pub struct ReceiptLedger {
    receipts: Vec<DurableReceipt>,
}

impl View for ReceiptLedger {
    type V = Seq<DurableReceipt>;

    closed spec fn view(&self) -> Seq<DurableReceipt> {
        self.receipts@
    }
}

impl Default for ReceiptLedger {
    fn default() -> (r: ReceiptLedger)
        ensures
            r.wf(),
            r@ == Seq::<DurableReceipt>::empty(),
    {
        ReceiptLedger::new()
    }
}

impl ReceiptLedger {
    /// Receipts are unique and ordered by key, and no event is acknowledged
    /// at two positions.
    pub open spec fn wf(&self) -> bool {
        sorted_by_key(self@) && events_unique(self@)
    }

    /// An empty ledger.
    pub fn new() -> (r: ReceiptLedger)
        ensures
            r.wf(),
            r@ == Seq::<DurableReceipt>::empty(),
    {
        ReceiptLedger { receipts: Vec::new() }
    }

    /// Records one receipt. Recording the same receipt again reports a
    /// duplicate without change; a different receipt at a held position, or
    /// a second position for a held event, fails.
    pub fn record(&mut self, receipt: DurableReceipt) -> (res: Result<ReceiptOutcome, DurabilityError>)
        requires
            old(self).wf(),
        ensures
            final(self).wf(),
            has_key(old(self)@, receipt.stream_id, receipt.sequence) && old(self)@.contains(receipt)
                ==> res == Ok::<ReceiptOutcome, DurabilityError>(ReceiptOutcome::Duplicate),
            has_key(old(self)@, receipt.stream_id, receipt.sequence) && !old(self)@.contains(
                receipt,
            ) ==> res matches Err(DurabilityError::Corrupt(_)),
            !has_key(old(self)@, receipt.stream_id, receipt.sequence) && has_event(
                old(self)@,
                receipt.event_id,
            ) ==> res matches Err(DurabilityError::Corrupt(_)),
            !has_key(old(self)@, receipt.stream_id, receipt.sequence) && !has_event(
                old(self)@,
                receipt.event_id,
            ) ==> res == Ok::<ReceiptOutcome, DurabilityError>(ReceiptOutcome::New)
                && inserted_in_order(old(self)@, receipt, final(self)@),
            !(res == Ok::<ReceiptOutcome, DurabilityError>(ReceiptOutcome::New)) ==> final(self)@
                == old(self)@,
    {
        let ghost rs = self.receipts@;
        let n = self.receipts.len();
        // Find the first position whose key is not below the new receipt's key.
        let mut k: usize = 0;
        while k < n && key_below(&self.receipts[k], &receipt)
            invariant
                n == rs.len(),
                rs == self.receipts@,
                k <= n,
                forall|i: int| 0 <= i < k ==> key_lt(#[trigger] rs[i], receipt),
            decreases n - k,
        {
            k = k + 1;
        }
        let same_key = k < n && self.receipts[k].stream_id == receipt.stream_id
            && self.receipts[k].sequence == receipt.sequence;
        proof {
            if k < n {
                assert(!key_lt(rs[k as int], receipt));
            }
            assert forall|i: int| k <= i < rs.len() && !(i == k && same_key) implies key_lt(
                receipt,
                #[trigger] rs[i],
            ) by {
                if i > k {
                    assert(key_lt(rs[k as int], rs[i]));
                }
            }
            if !same_key {
                assert forall|i: int| 0 <= i < rs.len() implies !((#[trigger] rs[i]).stream_id
                    == receipt.stream_id && rs[i].sequence == receipt.sequence) by {
                    if i < k {
                        assert(key_lt(rs[i], receipt));
                    } else {
                        assert(key_lt(receipt, rs[i]));
                    }
                }
            }
        }
        if same_key {
            let existing = self.receipts[k];
            proof {
                assert(has_key(rs, receipt.stream_id, receipt.sequence));
                if rs.contains(receipt) {
                    let j = choose|j: int| 0 <= j < rs.len() && rs[j] == receipt;
                    if j < k {
                        assert(key_lt(rs[j], receipt));
                    } else if j > k {
                        assert(key_lt(rs[k as int], rs[j]));
                    }
                }
            }
            if existing == receipt {
                return Ok(ReceiptOutcome::Duplicate);
            }
            return Err(
                DurabilityError::Corrupt(
                    message_with_number(
                        "conflicting receipt for stream position at sequence ",
                        receipt.sequence,
                    ),
                ),
            );
        }
        let mut i: usize = 0;
        while i < n
            invariant
                n == rs.len(),
                rs == self.receipts@,
                sorted_by_key(rs),
                events_unique(rs),
                !has_key(rs, receipt.stream_id, receipt.sequence),
                i <= n,
                forall|j: int| 0 <= j < i ==> (#[trigger] rs[j]).event_id != receipt.event_id,
            decreases n - i,
        {
            if self.receipts[i].event_id == receipt.event_id {
                return Err(
                    DurabilityError::Corrupt(
                        message_with_number(
                            "event is acknowledged at more than one stream position: ",
                            receipt.event_id.0,
                        ),
                    ),
                );
            }
            i = i + 1;
        }
        self.receipts.insert(k, receipt);
        proof {
            let out = self.receipts@;
            assert(out == rs.insert(k as int, receipt));
            assert forall|a: int, b: int| 0 <= a < b < out.len() implies key_lt(
                #[trigger] out[a],
                #[trigger] out[b],
            ) by {
                if b < k {
                } else if a < k && b == k {
                } else if a < k {
                    assert(out[b] == rs[b - 1]);
                } else if a == k {
                    assert(out[b] == rs[b - 1]);
                } else {
                    assert(out[a] == rs[a - 1]);
                    assert(out[b] == rs[b - 1]);
                }
            }
            assert forall|a: int, b: int| 0 <= a < b < out.len() implies (#[trigger] out[a]).event_id
                != (#[trigger] out[b]).event_id by {
                if b < k {
                } else if a < k && b == k {
                } else if a < k {
                    assert(out[b] == rs[b - 1]);
                } else if a == k {
                    assert(out[b] == rs[b - 1]);
                } else {
                    assert(out[a] == rs[a - 1]);
                    assert(out[b] == rs[b - 1]);
                }
            }
            assert(inserted_in_order(rs, receipt, out));
        }
        Ok(ReceiptOutcome::New)
    }

    /// Records the receipt of `event` at a stream position.
    pub fn record_event(
        &mut self,
        stream_id: StreamId,
        sequence: u64,
        event: &CausalEvent,
        lease_term: LeaseTerm,
        partition_generation: PartitionGeneration,
    ) -> (res: Result<ReceiptOutcome, DurabilityError>)
        requires
            old(self).wf(),
        ensures
            final(self).wf(),
            ({
                let receipt = event_receipt(stream_id, sequence, event@, lease_term, partition_generation);
                &&& has_key(old(self)@, stream_id, sequence) && old(self)@.contains(receipt) ==> res
                    == Ok::<ReceiptOutcome, DurabilityError>(ReceiptOutcome::Duplicate)
                &&& has_key(old(self)@, stream_id, sequence) && !old(self)@.contains(receipt)
                    ==> (res matches Err(DurabilityError::Corrupt(_)))
                &&& !has_key(old(self)@, stream_id, sequence) && has_event(old(self)@, event@.id)
                    ==> (res matches Err(DurabilityError::Corrupt(_)))
                &&& !has_key(old(self)@, stream_id, sequence) && !has_event(old(self)@, event@.id)
                    ==> res == Ok::<ReceiptOutcome, DurabilityError>(ReceiptOutcome::New)
                    && inserted_in_order(old(self)@, receipt, final(self)@)
            }),
            !(res == Ok::<ReceiptOutcome, DurabilityError>(ReceiptOutcome::New)) ==> final(self)@
                == old(self)@,
    {
        let payload_digest = digest_domain("causal-payload", event.payload.as_slice());
        self.record(
            DurableReceipt {
                stream_id,
                sequence,
                event_id: event.id,
                lease_term,
                partition_generation,
                tag: event.key.tag,
                payload_digest,
            },
        )
    }

    /// A copy of the ledger.
    pub fn copy(&self) -> (r: ReceiptLedger)
        ensures
            r@ == self@,
    {
        let mut receipts: Vec<DurableReceipt> = Vec::new();
        let mut i: usize = 0;
        while i < self.receipts.len()
            invariant
                i <= self@.len(),
                receipts@ == self@.subrange(0, i as int),
            decreases self@.len() - i,
        {
            receipts.push(self.receipts[i]);
            i = i + 1;
            assert(receipts@ =~= self@.subrange(0, i as int));
        }
        assert(self@.subrange(0, self@.len() as int) =~= self@);
        ReceiptLedger { receipts }
    }

    /// The same receipts, re-issued under `term`.
    pub fn with_term(&self, term: LeaseTerm) -> (r: ReceiptLedger)
        requires
            self.wf(),
        ensures
            r.wf(),
            r@ == self@.map_values(|x: DurableReceipt| receipt_with_term(x, term)),
    {
        let mut receipts: Vec<DurableReceipt> = Vec::new();
        let mut i: usize = 0;
        while i < self.receipts.len()
            invariant
                i <= self@.len(),
                receipts@ == self@.subrange(0, i as int).map_values(
                    |x: DurableReceipt| receipt_with_term(x, term),
                ),
            decreases self@.len() - i,
        {
            let x = self.receipts[i];
            receipts.push(DurableReceipt { lease_term: term, ..x });
            i = i + 1;
            assert(receipts@ =~= self@.subrange(0, i as int).map_values(
                |x: DurableReceipt| receipt_with_term(x, term),
            ));
        }
        assert(self@.subrange(0, self@.len() as int) =~= self@);
        let out = ReceiptLedger { receipts };
        assert(sorted_by_key(out@));
        assert(events_unique(out@));
        out
    }

    /// One past the highest acknowledged sequence of `stream`, or zero.
    pub fn stream_next_sequence(&self, stream: StreamId) -> (n: u64)
        ensures
            n == stream_next(self@, stream),
    {
        let mut best: u64 = 0;
        let mut i: usize = 0;
        while i < self.receipts.len()
            invariant
                i <= self@.len(),
                best == stream_next(self@.take(i as int), stream),
            decreases self@.len() - i,
        {
            let r = self.receipts[i];
            if r.stream_id == stream {
                let n = r.sequence.saturating_add(1);
                if n > best {
                    best = n;
                }
            }
            assert(self@.take(i + 1).drop_last() =~= self@.take(i as int));
            i = i + 1;
        }
        assert(self@.take(self@.len() as int) =~= self@);
        best
    }

    /// The number of receipts.
    pub fn len(&self) -> (n: usize)
        ensures
            n == self@.len(),
    {
        self.receipts.len()
    }

    /// Whether no receipt is held.
    pub fn is_empty(&self) -> (b: bool)
        ensures
            b == (self@.len() == 0),
    {
        self.receipts.len() == 0
    }

    /// Whether a receipt sits at this stream position.
    pub fn contains(&self, stream_id: StreamId, sequence: u64) -> (b: bool)
        ensures
            b == has_key(self@, stream_id, sequence),
    {
        let mut i: usize = 0;
        while i < self.receipts.len()
            invariant
                i <= self@.len(),
                forall|j: int|
                    0 <= j < i ==> !((#[trigger] self@[j]).stream_id == stream_id && self@[j].sequence
                        == sequence),
            decreases self@.len() - i,
        {
            if self.receipts[i].stream_id == stream_id && self.receipts[i].sequence == sequence {
                return true;
            }
            i = i + 1;
        }
        false
    }

    /// All receipts, ordered by stream position.
    pub fn receipts(&self) -> (r: &Vec<DurableReceipt>)
        ensures
            r@ == self@,
    {
        &self.receipts
    }

    /// The receipts of one producer stream, in sequence order.
    pub fn stream_receipts(&self, stream_id: StreamId) -> (out: Vec<DurableReceipt>)
        ensures
            out@ == self@.filter(|r: DurableReceipt| r.stream_id == stream_id),
    {
        let mut out: Vec<DurableReceipt> = Vec::new();
        let mut i: usize = 0;
        while i < self.receipts.len()
            invariant
                i <= self@.len(),
                out@ == self@.subrange(0, i as int).filter(|r: DurableReceipt| r.stream_id == stream_id),
            decreases self@.len() - i,
        {
            let r = self.receipts[i];
            if r.stream_id == stream_id {
                out.push(r);
            }
            proof {
                let pre = self@.subrange(0, i as int);
                assert(self@.subrange(0, i + 1) =~= pre.push(self@[i as int]));
                pre.lemma_filter_push(self@[i as int], |r: DurableReceipt| r.stream_id == stream_id);
            }
            i = i + 1;
        }
        assert(self@.subrange(0, self@.len() as int) =~= self@);
        out
    }
}

} // verus!
