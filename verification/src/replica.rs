//! The warm WAL replica: an idempotent, gap-free copy of the active log.

use crate::error::DurabilityError;
use crate::ids::{LeaseTerm, StateDigest};
use crate::text::message_with_number;
use crate::wal::{
    chain_linked, chain_prev, chain_tip, chain_valid, copy_records, integrity_valid, records_view, WalRecord,
    WalRecordView,
};
use vstd::prelude::*;
use vstd::string::*;

verus! {

/// How a replica treats one offered record.
pub enum ReplicaVerdict {
    /// The record carries another term.
    Stale,
    /// The record is an exact retransmission of one already held.
    AlreadyHeld,
    /// The record differs from the one held at its sequence.
    Conflict,
    /// The record skips ahead of the next expected sequence.
    Gap,
    /// The record does not link to the replica's chain or its digest is wrong.
    Invalid,
    /// The sequence space is exhausted.
    Overflow,
    /// The record extends the replica.
    Append,
}

/// The verdict on offering `r` to a replica of `term` holding `rs`.
pub open spec fn replica_verdict(term: LeaseTerm, rs: Seq<WalRecordView>, r: WalRecordView) -> ReplicaVerdict {
    if r.lease_term != term {
        ReplicaVerdict::Stale
    } else if r.sequence < rs.len() {
        if rs[r.sequence as int] == r {
            ReplicaVerdict::AlreadyHeld
        } else {
            ReplicaVerdict::Conflict
        }
    } else if r.sequence != rs.len() {
        ReplicaVerdict::Gap
    } else if !integrity_valid(r, chain_tip(rs)) {
        ReplicaVerdict::Invalid
    } else if rs.len() == u64::MAX {
        ReplicaVerdict::Overflow
    } else {
        ReplicaVerdict::Append
    }
}

/// The records a replica of `term` holds after starting from `rs` and being
/// offered `input` in order, or `None` when one offer fails.
pub open spec fn replica_fold(term: LeaseTerm, rs: Seq<WalRecordView>, input: Seq<WalRecordView>) -> Option<
    Seq<WalRecordView>,
>
    decreases input.len(),
{
    if input.len() == 0 {
        Some(rs)
    } else {
        match replica_verdict(term, rs, input[0]) {
            ReplicaVerdict::AlreadyHeld => replica_fold(term, rs, input.drop_first()),
            ReplicaVerdict::Append => replica_fold(term, rs.push(input[0]), input.drop_first()),
            _ => None,
        }
    }
}

/// Where offering `input` in order to a replica of `term` holding `rs` first
/// fails: the records held then and the record refused, or `None` when every
/// offer succeeds.
pub open spec fn fold_failure(term: LeaseTerm, rs: Seq<WalRecordView>, input: Seq<WalRecordView>) -> Option<
    (Seq<WalRecordView>, WalRecordView),
>
    decreases input.len(),
{
    if input.len() == 0 {
        None
    } else {
        match replica_verdict(term, rs, input[0]) {
            ReplicaVerdict::AlreadyHeld => fold_failure(term, rs, input.drop_first()),
            ReplicaVerdict::Append => fold_failure(term, rs.push(input[0]), input.drop_first()),
            _ => Some((rs, input[0])),
        }
    }
}

/// `e` is the error with which a replica of `term` holding `rs` refuses `r`.
pub open spec fn refusal_error(e: DurabilityError, term: LeaseTerm, rs: Seq<WalRecordView>, r: WalRecordView) -> bool {
    match replica_verdict(term, rs, r) {
        ReplicaVerdict::Stale => e matches DurabilityError::StaleTerm { expected, received } && expected == term
            && received == r.lease_term,
        ReplicaVerdict::Conflict => e matches DurabilityError::Corrupt(_),
        ReplicaVerdict::Gap => e matches DurabilityError::ReplicaSequenceGap { expected, received } && expected
            == rs.len() && received == r.sequence,
        ReplicaVerdict::Invalid => e matches DurabilityError::Corrupt(_),
        ReplicaVerdict::Overflow => e matches DurabilityError::SequenceOverflow,
        _ => false,
    }
}

/// Mathematical value of a [`WarmReplica`].
pub struct WarmReplicaView {
    pub term: LeaseTerm,
    pub records: Seq<WalRecordView>,
}

/// An in-memory warm replica of one shard's WAL.
#[derive(Clone, Debug)]
pub struct WarmReplica {
    next_sequence: u64,
    term: LeaseTerm,
    records: Vec<WalRecord>,
}

impl View for WarmReplica {
    type V = WarmReplicaView;

    closed spec fn view(&self) -> WarmReplicaView {
        WarmReplicaView { term: self.term, records: records_view(self.records@) }
    }
}

impl WarmReplica {
    /// The held records form an intact chain under the replica's term.
    pub closed spec fn wf(&self) -> bool {
        &&& self.next_sequence == self.records@.len()
        &&& chain_valid(records_view(self.records@), self.term)
    }

    /// An empty replica of `term`.
    pub fn new(term: LeaseTerm) -> (r: WarmReplica)
        ensures
            r.wf(),
            r@.term == term,
            r@.records == Seq::<WalRecordView>::empty(),
    {
        let r = WarmReplica { next_sequence: 0, term, records: Vec::new() };
        assert(records_view(r.records@) =~= Seq::<WalRecordView>::empty());
        assert(chain_valid(records_view(r.records@), term)) by {
            reveal(chain_valid);
        }
        r
    }

    /// A copy of the replica.
    pub fn copy(&self) -> (r: WarmReplica)
        requires
            self.wf(),
        ensures
            r.wf(),
            r@ == self@,
    {
        WarmReplica { next_sequence: self.next_sequence, term: self.term, records: copy_records(&self.records) }
    }

    /// The replica's term.
    pub fn term(&self) -> (t: LeaseTerm)
        ensures
            t == self@.term,
    {
        self.term
    }

    /// Offers one record. An exact retransmission of a held record succeeds
    /// without change; a conflicting or skipped record fails closed.
    pub fn apply(&mut self, record: WalRecord) -> (res: Result<(), DurabilityError>)
        requires
            old(self).wf(),
        ensures
            final(self).wf(),
            final(self)@.term == old(self)@.term,
            ({
                let v = replica_verdict(old(self)@.term, old(self)@.records, record@);
                match v {
                    ReplicaVerdict::Stale => res matches Err(
                        DurabilityError::StaleTerm { expected, received },
                    ) && expected == old(self)@.term && received == record.lease_term,
                    ReplicaVerdict::AlreadyHeld => res is Ok,
                    ReplicaVerdict::Conflict => res matches Err(DurabilityError::Corrupt(_)),
                    ReplicaVerdict::Gap => res matches Err(
                        DurabilityError::ReplicaSequenceGap { expected, received },
                    ) && expected == old(self)@.records.len() && received == record.sequence,
                    ReplicaVerdict::Invalid => res matches Err(DurabilityError::Corrupt(_)),
                    ReplicaVerdict::Overflow => res matches Err(DurabilityError::SequenceOverflow),
                    ReplicaVerdict::Append => res is Ok,
                }
            }),
            replica_verdict(old(self)@.term, old(self)@.records, record@) is Append
                ==> final(self)@.records == old(self)@.records.push(record@),
            !(replica_verdict(old(self)@.term, old(self)@.records, record@) is Append)
                ==> final(self)@ == old(self)@,
    {
        let ghost rs = records_view(self.records@);
        let ghost v = replica_verdict(self.term, rs, record@);
        if record.lease_term != self.term {
            assert(v is Stale);
            return Err(DurabilityError::StaleTerm { expected: self.term, received: record.lease_term });
        }
        if record.sequence < self.next_sequence {
            let n = self.records.len();
            assert(record.sequence < n);
            let idx = record.sequence as usize;
            let existing = &self.records[idx];
            assert(idx as int == record.sequence as int);
            assert(*existing == self.records@[idx as int]);
            assert(rs[idx as int] == self.records@[idx as int]@);
            if existing.same_as(&record) {
                assert(v is AlreadyHeld);
                return Ok(());
            }
            assert(v is Conflict);
            return Err(
                DurabilityError::Corrupt(
                    message_with_number(
                        "conflicting duplicate WAL record at sequence ",
                        record.sequence,
                    ),
                ),
            );
        }
        if record.sequence != self.next_sequence {
            assert(v is Gap);
            return Err(
                DurabilityError::ReplicaSequenceGap {
                    expected: self.next_sequence,
                    received: record.sequence,
                },
            );
        }
        let len = self.records.len();
        let previous_digest = if len == 0 {
            StateDigest::zero()
        } else {
            self.records[len - 1].record_digest
        };
        assert(previous_digest == chain_tip(rs));
        if !record.is_integrity_valid(previous_digest) {
            assert(v is Invalid);
            return Err(
                DurabilityError::Corrupt(
                    message_with_number(
                        "invalid WAL record integrity at sequence ",
                        record.sequence,
                    ),
                ),
            );
        }
        if self.next_sequence == u64::MAX {
            assert(v is Overflow);
            return Err(DurabilityError::SequenceOverflow);
        }
        assert(v is Append);
        self.next_sequence = self.next_sequence + 1;
        let ghost rv = record@;
        self.records.push(record);
        proof {
            assert(records_view(self.records@) =~= rs.push(rv));
            lemma_push_valid(rs, rv, self.term);
        }
        Ok(())
    }

    /// The number of records held.
    pub fn applied(&self) -> (n: usize)
        ensures
            n == self@.records.len(),
    {
        self.records.len()
    }

    /// The held records, in sequence order.
    pub fn records(&self) -> (r: &Vec<WalRecord>)
        ensures
            records_view(r@) == self@.records,
    {
        &self.records
    }

    /// Builds a replica of `term` by offering `records` in order.
    pub fn from_records(term: LeaseTerm, records: Vec<WalRecord>) -> (res: Result<
        WarmReplica,
        DurabilityError,
    >)
        ensures
            res is Ok <==> replica_fold(term, Seq::empty(), records_view(records@)) is Some,
            res matches Ok(r) ==> r.wf() && r@.term == term && r@.records == replica_fold(
                term,
                Seq::empty(),
                records_view(records@),
            )->0,
            res matches Err(e) ==> fold_failure(term, Seq::empty(), records_view(records@)) matches Some(f)
                && refusal_error(e, term, f.0, f.1),
    {
        let mut replica = WarmReplica::new(term);
        let ghost all = records_view(records@);
        let mut i: usize = 0;
        assert(all.subrange(0, all.len() as int) =~= all);
        while i < records.len()
            invariant
                i <= records@.len(),
                all == records_view(records@),
                replica.wf(),
                replica@.term == term,
                replica_fold(term, Seq::empty(), all) == replica_fold(
                    term,
                    replica@.records,
                    all.subrange(i as int, all.len() as int),
                ),
                fold_failure(term, Seq::empty(), all) == fold_failure(
                    term,
                    replica@.records,
                    all.subrange(i as int, all.len() as int),
                ),
            decreases records@.len() - i,
        {
            let ghost rest = all.subrange(i as int, all.len() as int);
            assert(rest[0] == records@[i as int]@);
            assert(rest.drop_first() =~= all.subrange(i + 1, all.len() as int));
            let record = records[i].copy();
            match replica.apply(record) {
                Ok(()) => {},
                Err(e) => {
                    return Err(e);
                },
            }
            i = i + 1;
        }
        Ok(replica)
    }

    /// The sequence of the last held record, if there is one.
    pub fn durable_sequence(&self) -> (r: Option<u64>)
        requires
            self.wf(),
        ensures
            r == (if self@.records.len() == 0 {
                None
            } else {
                Some((self@.records.len() - 1) as u64)
            }),
    {
        if self.next_sequence == 0 {
            None
        } else {
            Some(self.next_sequence - 1)
        }
    }
}

/// Extending an intact chain by a linked record of its term keeps it intact.
pub proof fn lemma_push_valid(rs: Seq<WalRecordView>, r: WalRecordView, term: LeaseTerm)
    requires
        chain_valid(rs, term),
        r.lease_term == term,
        r.sequence == rs.len(),
        integrity_valid(r, chain_tip(rs)),
    ensures
        chain_valid(rs.push(r), term),
{
    reveal(chain_valid);
    let now = rs.push(r);
    assert forall|i: int| 0 <= i < now.len() implies (#[trigger] now[i]).sequence == i
        && integrity_valid(now[i], chain_prev(now, i)) && now[i].lease_term == term by {
        if i < rs.len() {
            assert(now[i] == rs[i]);
            assert(chain_prev(now, i) == chain_prev(rs, i));
        }
    }
}

/// A replica offered the records of an intact chain, in order, holds exactly
/// that chain.
pub proof fn lemma_replica_accepts_chain(term: LeaseTerm, rs: Seq<WalRecordView>)
    requires
        chain_valid(rs, term),
        rs.len() <= u64::MAX,
    ensures
        replica_fold(term, Seq::empty(), rs) == Some(rs),
{
    lemma_replica_fold_suffix(term, rs, 0);
    assert(rs.take(0) =~= Seq::<WalRecordView>::empty());
    assert(rs.skip(0) =~= rs);
}

/// Offering the rest of an intact chain to a replica that holds its first `k`
/// records yields the whole chain.
pub proof fn lemma_replica_fold_suffix(term: LeaseTerm, rs: Seq<WalRecordView>, k: int)
    requires
        chain_valid(rs, term),
        rs.len() <= u64::MAX,
        0 <= k <= rs.len(),
    ensures
        replica_fold(term, rs.take(k), rs.skip(k)) == Some(rs),
    decreases rs.len() - k,
{
    reveal(chain_valid);
    if k == rs.len() {
        assert(rs.take(k) =~= rs);
    } else {
        let done = rs.take(k);
        let r = rs[k];
        assert(rs.skip(k)[0] == r);
        assert(r.sequence == k);
        assert(chain_tip(done) == chain_prev(rs, k));
        assert(replica_verdict(term, done, r) is Append);
        assert(done.push(r) =~= rs.take(k + 1));
        assert(rs.skip(k).drop_first() =~= rs.skip(k + 1));
        lemma_replica_fold_suffix(term, rs, k + 1);
    }
}

} // verus!
