//! The two-file commit between an active shard owner and its warm replica:
//! which steps a commit takes, and what is undone when one of them fails.
//! The owner performs each step and reports whether it succeeded; the
//! in-memory shard is replaced only on `Commit`.

use crate::checkpoint::ShardCheckpointView;
use crate::replica::replica_fold;
use crate::wal::WalRecordView;
use crate::warm_document::{lemma_fold_push, WarmReplicaDocumentView};
use vstd::prelude::*;

verus! {

/// What is being committed.
#[derive(Clone, Copy, Debug, PartialEq, Eq, Structural)]
pub enum WarmCommitKind {
    /// An envelope was staged; `applied` when it was new (not a duplicate),
    /// `record` when the staged shard has a WAL record to replicate.
    Event { applied: bool, record: bool },
    /// A peripheral cursor update at the current boundary.
    CursorUpdate,
}

/// One step of a warm-replicated commit.
#[derive(Clone, Copy, Debug, PartialEq, Eq, Structural)]
pub enum WarmStep {
    /// Offer the staged WAL record to the warm replica.
    ReplicateRecord,
    /// Prepare the staged checkpoint in the warm replica.
    PrepareCheckpoint,
    /// Publish the staged state as the active owner's current state.
    PublishActive,
    /// Finalize the prepared checkpoint in the warm replica.
    FinalizeCheckpoint,
}

/// What to undo after a failed step, before the failure is returned.
#[derive(Clone, Copy, Debug, PartialEq, Eq, Structural)]
pub struct AbortPlan {
    /// Publish the previous in-memory state again as the active state.
    pub restore_active: bool,
    /// Truncate the warm replica back to the previous durable sequence.
    pub truncate_warm: bool,
    /// Discard the warm replica's prepared checkpoint.
    pub rollback_pending: bool,
}

/// The steps of a commit, in order.
pub open spec fn commit_steps(kind: WarmCommitKind) -> Seq<WarmStep> {
    match kind {
        WarmCommitKind::Event { applied, record } => if !applied {
            seq![WarmStep::PublishActive]
        } else if record {
            seq![
                WarmStep::ReplicateRecord,
                WarmStep::PrepareCheckpoint,
                WarmStep::PublishActive,
                WarmStep::FinalizeCheckpoint,
            ]
        } else {
            seq![WarmStep::PublishActive, WarmStep::FinalizeCheckpoint]
        },
        WarmCommitKind::CursorUpdate => seq![
            WarmStep::PrepareCheckpoint,
            WarmStep::PublishActive,
            WarmStep::FinalizeCheckpoint,
        ],
    }
}

/// Whether a commit of this kind touches the warm replica at all.
pub open spec fn touches_warm(kind: WarmCommitKind) -> bool {
    match kind {
        WarmCommitKind::Event { applied, .. } => applied,
        WarmCommitKind::CursorUpdate => true,
    }
}

/// What is undone when `failed` fails: the warm replica is rolled back
/// whenever the commit touches it, truncated when the commit replicates
/// events, and the active state is restored when it was already published.
pub open spec fn abort_plan(kind: WarmCommitKind, failed: WarmStep) -> AbortPlan {
    AbortPlan {
        restore_active: failed == WarmStep::FinalizeCheckpoint,
        truncate_warm: kind is Event && touches_warm(kind),
        rollback_pending: touches_warm(kind),
    }
}

/// The steps of a commit of `kind`, in order.
pub fn warm_commit_steps(kind: WarmCommitKind) -> (steps: Vec<WarmStep>)
    ensures
        steps@ == commit_steps(kind),
{
    match kind {
        WarmCommitKind::Event { applied, record } => if !applied {
            vec![WarmStep::PublishActive]
        } else if record {
            vec![
                WarmStep::ReplicateRecord,
                WarmStep::PrepareCheckpoint,
                WarmStep::PublishActive,
                WarmStep::FinalizeCheckpoint,
            ]
        } else {
            vec![WarmStep::PublishActive, WarmStep::FinalizeCheckpoint]
        },
        WarmCommitKind::CursorUpdate => vec![
            WarmStep::PrepareCheckpoint,
            WarmStep::PublishActive,
            WarmStep::FinalizeCheckpoint,
        ],
    }
}

/// What to undo when step `failed` of a commit of `kind` fails.
pub fn warm_commit_abort(kind: WarmCommitKind, failed: WarmStep) -> (plan: AbortPlan)
    ensures
        plan == abort_plan(kind, failed),
{
    let touches = match kind {
        WarmCommitKind::Event { applied, .. } => applied,
        WarmCommitKind::CursorUpdate => true,
    };
    let is_event = match kind {
        WarmCommitKind::Event { .. } => true,
        WarmCommitKind::CursorUpdate => false,
    };
    AbortPlan {
        restore_active: failed == WarmStep::FinalizeCheckpoint,
        truncate_warm: is_event && touches,
        rollback_pending: touches,
    }
}

/// Where in a commit the active state is published.
pub open spec fn publish_position(kind: WarmCommitKind) -> int {
    match kind {
        WarmCommitKind::Event { applied, record } => if applied && record {
            2
        } else {
            0
        },
        WarmCommitKind::CursorUpdate => 1,
    }
}

/// Every commit publishes the active state exactly once; a commit that
/// touches the warm replica finalizes it last, after the publication, so the
/// warm replica never holds a finalized boundary that the active owner has
/// not published; and a failure restores the active state exactly when it
/// comes after the publication.
pub proof fn lemma_commit_order(kind: WarmCommitKind)
    ensures
        ({
            let steps = commit_steps(kind);
            let p = publish_position(kind);
            &&& 0 <= p < steps.len()
            &&& steps[p] == WarmStep::PublishActive
            &&& forall|q: int| 0 <= q < steps.len() && q != p ==> steps[q] != WarmStep::PublishActive
            &&& touches_warm(kind) ==> steps.last() == WarmStep::FinalizeCheckpoint && p < steps.len() - 1
            &&& !touches_warm(kind) ==> steps == seq![WarmStep::PublishActive]
            &&& forall|i: int| 0 <= i < steps.len() ==> (abort_plan(kind, #[trigger] steps[i]).restore_active <==> i > p)
        }),
{
    let steps = commit_steps(kind);
    match kind {
        WarmCommitKind::Event { applied, record } => {
            if !applied {
            } else if record {
                assert(steps.len() == 4);
                assert(steps[0] == WarmStep::ReplicateRecord);
                assert(steps[1] == WarmStep::PrepareCheckpoint);
                assert(steps[3] == WarmStep::FinalizeCheckpoint);
            } else {
                assert(steps.len() == 2);
                assert(steps[1] == WarmStep::FinalizeCheckpoint);
            }
        },
        WarmCommitKind::CursorUpdate => {
            assert(steps.len() == 3);
            assert(steps[0] == WarmStep::PrepareCheckpoint);
            assert(steps[2] == WarmStep::FinalizeCheckpoint);
        },
    }
}

/// The two files a warm-replicated commit touches: the active owner's
/// current state and the warm replica's document.
pub struct TwoFileView {
    pub active: ShardCheckpointView,
    pub warm: WarmReplicaDocumentView,
}

/// What a successful step does to the two files, as the contracts of the
/// warm document operations and of publishing the active state say.
pub open spec fn step_effect(
    s: TwoFileView,
    step: WarmStep,
    record: WalRecordView,
    candidate: ShardCheckpointView,
) -> TwoFileView {
    match step {
        WarmStep::ReplicateRecord => TwoFileView {
            warm: WarmReplicaDocumentView {
                records: replica_fold(s.warm.term, Seq::empty(), s.warm.records.push(record))->0,
                ..s.warm
            },
            ..s
        },
        WarmStep::PrepareCheckpoint => TwoFileView {
            warm: WarmReplicaDocumentView { pending_checkpoint: Some(candidate), ..s.warm },
            ..s
        },
        WarmStep::PublishActive => TwoFileView { active: candidate, ..s },
        WarmStep::FinalizeCheckpoint => TwoFileView {
            warm: WarmReplicaDocumentView {
                checkpoint: s.warm.pending_checkpoint,
                pending_checkpoint: None,
                ..s.warm
            },
            ..s
        },
    }
}

/// The two files after the first `n` steps succeeded.
pub open spec fn run_steps(
    s: TwoFileView,
    steps: Seq<WarmStep>,
    n: nat,
    record: WalRecordView,
    candidate: ShardCheckpointView,
) -> TwoFileView
    decreases n,
{
    if n == 0 {
        s
    } else {
        step_effect(run_steps(s, steps, (n - 1) as nat, record, candidate), steps[n - 1], record, candidate)
    }
}

/// What truncating the warm replica to `sequence` does, as
/// `WarmReplicaDocument::truncate_to` says (a refused truncation changes
/// nothing).
pub open spec fn truncate_effect(w: WarmReplicaDocumentView, sequence: Option<u64>) -> WarmReplicaDocumentView {
    let keep: int = match sequence {
        None => 0,
        Some(s) => if s == u64::MAX { u64::MAX as int } else { s + 1 },
    };
    if keep <= w.records.len() {
        WarmReplicaDocumentView {
            records: w.records.take(keep),
            pending_checkpoint: if w.pending_checkpoint matches Some(p) && p.durable_wal_sequence != sequence {
                None
            } else {
                w.pending_checkpoint
            },
            ..w
        }
    } else {
        w
    }
}

/// What carrying out an abort plan does: the previous active state is
/// published again, the warm replica is truncated to the previous sequence,
/// and its prepared checkpoint is discarded, as the plan says.
pub open spec fn abort_effect(
    s: TwoFileView,
    plan: AbortPlan,
    previous_active: ShardCheckpointView,
    previous_sequence: Option<u64>,
) -> TwoFileView {
    let active = if plan.restore_active {
        previous_active
    } else {
        s.active
    };
    let w1 = if plan.truncate_warm {
        truncate_effect(s.warm, previous_sequence)
    } else {
        s.warm
    };
    let w2 = if plan.rollback_pending {
        WarmReplicaDocumentView { pending_checkpoint: None, ..w1 }
    } else {
        w1
    };
    TwoFileView { active, warm: w2 }
}

/// A failed warm-replicated commit, once its abort plan is carried out,
/// leaves both files as they were: whichever step fails (the steps before it
/// having succeeded), the active state, the warm replica's records and both
/// of its checkpoint slots are those from before the commit. This holds when
/// the warm replica started in sync with an intact prefix and nothing
/// prepared.
pub proof fn lemma_aborted_commit_restores_both_files(
    s0: TwoFileView,
    kind: WarmCommitKind,
    failed: nat,
    record: WalRecordView,
    candidate: ShardCheckpointView,
)
    requires
        s0.warm.pending_checkpoint is None,
        replica_fold(s0.warm.term, Seq::empty(), s0.warm.records) == Some(s0.warm.records),
        s0.warm.records.len() <= u64::MAX,
        failed < commit_steps(kind).len(),
        commit_steps(kind)[0] == WarmStep::ReplicateRecord && failed > 0 ==> replica_fold(
            s0.warm.term,
            Seq::empty(),
            s0.warm.records.push(record),
        ) is Some,
    ensures
        ({
            let steps = commit_steps(kind);
            let previous_sequence = if s0.warm.records.len() == 0 {
                None
            } else {
                Some((s0.warm.records.len() - 1) as u64)
            };
            abort_effect(
                run_steps(s0, steps, failed, record, candidate),
                abort_plan(kind, steps[failed as int]),
                s0.active,
                previous_sequence,
            ) == s0
        }),
{
    let steps = commit_steps(kind);
    let p = s0.warm.records;
    let previous_sequence = if p.len() == 0 {
        None
    } else {
        Some((p.len() - 1) as u64)
    };
    let after_replicate = replica_fold(s0.warm.term, Seq::empty(), p.push(record))->0;
    if commit_steps(kind)[0] == WarmStep::ReplicateRecord && failed > 0 {
        // Replicating keeps the prefix and adds at most the record.
        lemma_fold_push(s0.warm.term, p, record);
        let one = seq![record];
        assert(one[0] == record);
        assert(one.drop_first() =~= Seq::<WalRecordView>::empty());
        assert(replica_fold(s0.warm.term, p, one.drop_first()) == Some(p));
        assert(replica_fold(s0.warm.term, p.push(record), one.drop_first()) == Some(p.push(record)));
        assert(after_replicate == p || after_replicate == p.push(record));
        assert(after_replicate.take(p.len() as int) =~= p);
    }
    let s = run_steps(s0, steps, failed, record, candidate);
    match kind {
        WarmCommitKind::Event { applied, record: has_record } => {
            if !applied {
                assert(failed == 0);
            } else if has_record {
                assert(steps.len() == 4);
                assert(steps[0] == WarmStep::ReplicateRecord);
                assert(steps[1] == WarmStep::PrepareCheckpoint);
                assert(steps[2] == WarmStep::PublishActive);
                assert(steps[3] == WarmStep::FinalizeCheckpoint);
                let s1 = run_steps(s0, steps, 1, record, candidate);
                let s2 = run_steps(s0, steps, 2, record, candidate);
                let s3 = run_steps(s0, steps, 3, record, candidate);
                assert(run_steps(s0, steps, 0, record, candidate) == s0);
                assert(s1.warm.records == after_replicate);
                assert(s3.warm.records == after_replicate);
                assert(s2.warm.records == after_replicate);
                if failed == 0 {
                    assert(p.take(p.len() as int) =~= p);
                } else {
                    assert(after_replicate.len() >= p.len());
                }
            } else {
                assert(steps.len() == 2);
                assert(steps[0] == WarmStep::PublishActive);
                assert(steps[1] == WarmStep::FinalizeCheckpoint);
                assert(run_steps(s0, steps, 0, record, candidate) == s0);
                assert(p.take(p.len() as int) =~= p);
            }
        },
        WarmCommitKind::CursorUpdate => {
            assert(steps.len() == 3);
            assert(steps[0] == WarmStep::PrepareCheckpoint);
            assert(steps[1] == WarmStep::PublishActive);
            assert(steps[2] == WarmStep::FinalizeCheckpoint);
            assert(run_steps(s0, steps, 0, record, candidate) == s0);
        },
    }
}

} // verus!
