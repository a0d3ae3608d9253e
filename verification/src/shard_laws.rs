//! What every reachable shard state keeps: receipts match the WAL one to one,
//! every producer stream's receipts run from zero without gaps, and each
//! receiver resumes exactly where its stream's receipts end. From these, a
//! shard's own checkpoint always restores.

use crate::causal_wal::{envelope_replay, next_record};
use crate::data_plane::{receive_verdict, CausalEnvelope, ReceiveResult, ReliableReceiver};
use crate::digest::single_domain_digest;
use crate::ids::StreamId;
use crate::receipts::{
    event_receipt, events_unique, has_event, has_key, inserted_in_order, key_lt, sorted_by_key, stream_next,
    DurableReceipt,
};
use crate::causal_wal::{is_retermed, retermed_record};
use crate::checkpoint::ShardCheckpointView;
use crate::ids::LeaseTerm;
use crate::receipts::receipt_with_term;
use crate::shard::{
    lemma_stream_next_absent, receivers_restored, reissued_receivers, restorable, restored_receiver, resumed_receiver,
    apply_verdict, committed, envelope_event, expected_sequence, first_with_event, has_receiver, has_stream,
    receipt_backed, receipts_match, receiver_of, receivers_wf, receivers_with, shard_snapshot, streams_contiguous,
    ApplyVerdict, DurableShardView,
};
use crate::wal::WalRecordView;
use vstd::prelude::*;
use vstd::string::*;

verus! {

/// One past `q`, saturating.
pub open spec fn next_after(q: u64) -> u64 {
    if q == u64::MAX {
        u64::MAX
    } else {
        (q + 1) as u64
    }
}

/// No receipt of `s` reaches `stream_next`.
pub proof fn lemma_stream_next_bound(rs: Seq<DurableReceipt>, s: StreamId)
    ensures
        forall|i: int| 0 <= i < rs.len() && (#[trigger] rs[i]).stream_id == s ==> next_after(rs[i].sequence)
            <= stream_next(rs, s),
    decreases rs.len(),
{
    if rs.len() > 0 {
        lemma_stream_next_bound(rs.drop_last(), s);
        assert forall|i: int| 0 <= i < rs.len() && (#[trigger] rs[i]).stream_id == s implies next_after(
            rs[i].sequence,
        ) <= stream_next(rs, s) by {
            if i < rs.len() - 1 {
                assert(rs.drop_last()[i] == rs[i]);
            }
        }
    }
}

/// `stream_next` is reached by some receipt of `s`, or is zero when `s` has
/// none.
pub proof fn lemma_stream_next_witness(rs: Seq<DurableReceipt>, s: StreamId)
    ensures
        stream_next(rs, s) == 0 <==> !has_stream(rs, s),
        stream_next(rs, s) > 0 ==> exists|i: int|
            0 <= i < rs.len() && (#[trigger] rs[i]).stream_id == s && next_after(rs[i].sequence) == stream_next(
                rs,
                s,
            ),
    decreases rs.len(),
{
    if rs.len() > 0 {
        let d = rs.drop_last();
        lemma_stream_next_witness(d, s);
        let l = rs.len() - 1;
        if has_stream(d, s) {
            let w = choose|w: int| 0 <= w < d.len() && (#[trigger] d[w]).stream_id == s;
            assert(rs[w] == d[w]);
        }
        if stream_next(d, s) > 0 {
            let w = choose|w: int|
                0 <= w < d.len() && (#[trigger] d[w]).stream_id == s && next_after(d[w].sequence) == stream_next(d, s);
            assert(rs[w] == d[w]);
        }
        if has_stream(rs, s) && !has_stream(d, s) {
            let w = choose|w: int| 0 <= w < rs.len() && (#[trigger] rs[w]).stream_id == s;
            if w < l {
                assert(d[w] == rs[w]);
            }
            assert(rs[l].stream_id == s);
        }
    }
}

/// The value that bounds every receipt of `s` and is reached by one (or is
/// zero when there is none) is `stream_next`.
pub proof fn lemma_stream_next_is(rs: Seq<DurableReceipt>, s: StreamId, n: u64)
    requires
        forall|i: int| 0 <= i < rs.len() && (#[trigger] rs[i]).stream_id == s ==> next_after(rs[i].sequence) <= n,
        (n == 0 && !has_stream(rs, s)) || exists|i: int|
            0 <= i < rs.len() && (#[trigger] rs[i]).stream_id == s && next_after(rs[i].sequence) == n,
    ensures
        stream_next(rs, s) == n,
{
    lemma_stream_next_bound(rs, s);
    lemma_stream_next_witness(rs, s);
    if stream_next(rs, s) > 0 {
        let w = choose|w: int|
            0 <= w < rs.len() && (#[trigger] rs[w]).stream_id == s && next_after(rs[w].sequence) == stream_next(rs, s);
        assert(stream_next(rs, s) <= n);
    }
    if n > 0 || has_stream(rs, s) {
        if exists|i: int| 0 <= i < rs.len() && (#[trigger] rs[i]).stream_id == s && next_after(rs[i].sequence) == n {
            let w = choose|w: int| 0 <= w < rs.len() && (#[trigger] rs[w]).stream_id == s && next_after(rs[w].sequence) == n;
            assert(n <= stream_next(rs, s));
        }
    }
}

/// Recording the next receipt of a stream, in key order, keeps every stream
/// contiguous and moves that stream's next sequence on by one.
pub proof fn lemma_insert_next_receipt(rs: Seq<DurableReceipt>, r: DurableReceipt, k: int)
    requires
        sorted_by_key(rs),
        streams_contiguous(rs),
        r.sequence == stream_next(rs, r.stream_id),
        r.sequence < u64::MAX,
        0 <= k <= rs.len(),
        forall|i: int| 0 <= i < k ==> key_lt(#[trigger] rs[i], r),
        forall|i: int| k <= i < rs.len() ==> key_lt(r, #[trigger] rs[i]),
    ensures
        streams_contiguous(rs.insert(k, r)),
        stream_next(rs.insert(k, r), r.stream_id) == r.sequence + 1,
        forall|st: StreamId| st != r.stream_id ==> stream_next(rs.insert(k, r), st) == stream_next(rs, st),
{
    let out = rs.insert(k, r);
    let s = r.stream_id;
    lemma_stream_next_bound(rs, s);
    lemma_stream_next_witness(rs, s);
    // The next sequence of the inserted stream.
    assert forall|i: int| 0 <= i < out.len() && (#[trigger] out[i]).stream_id == s implies next_after(out[i].sequence)
        <= (r.sequence + 1) as u64 by {
        if i < k {
            assert(out[i] == rs[i]);
        } else if i > k {
            assert(out[i] == rs[i - 1]);
        }
    }
    assert(out[k] == r);
    lemma_stream_next_is(out, s, (r.sequence + 1) as u64);
    // Other streams are unchanged.
    assert forall|st: StreamId| st != s implies stream_next(out, st) == stream_next(rs, st) by {
        lemma_stream_next_bound(rs, st);
        lemma_stream_next_witness(rs, st);
        let n = stream_next(rs, st);
        assert forall|i: int| 0 <= i < out.len() && (#[trigger] out[i]).stream_id == st implies next_after(
            out[i].sequence,
        ) <= n by {
            if i < k {
                assert(out[i] == rs[i]);
            } else if i > k {
                assert(out[i] == rs[i - 1]);
            }
        }
        if n > 0 {
            let w = choose|w: int|
                0 <= w < rs.len() && (#[trigger] rs[w]).stream_id == st && next_after(rs[w].sequence) == n;
            if w < k {
                assert(out[w] == rs[w]);
            } else {
                assert(out[w + 1] == rs[w]);
            }
        } else {
            if has_stream(out, st) {
                let w = choose|w: int| 0 <= w < out.len() && (#[trigger] out[w]).stream_id == st;
                if w < k {
                    assert(out[w] == rs[w]);
                } else if w > k {
                    assert(out[w] == rs[w - 1]);
                }
            }
        }
        lemma_stream_next_is(out, st, n);
    }
    // Contiguity.
    assert forall|i: int| 0 <= i < out.len() implies (#[trigger] out[i]).sequence < u64::MAX && out[i].sequence
        == expected_sequence(out, i) by {
        if i < k {
            assert(out[i] == rs[i]);
            if i > 0 {
                assert(out[i - 1] == rs[i - 1]);
            }
            assert(rs[i].sequence == expected_sequence(rs, i));
        } else if i == k {
            if stream_next(rs, s) > 0 {
                let w = choose|w: int|
                    0 <= w < rs.len() && (#[trigger] rs[w]).stream_id == s && next_after(rs[w].sequence) == stream_next(
                        rs,
                        s,
                    );
                assert(rs[w].sequence + 1 == r.sequence);
                assert(w < k) by {
                    if w >= k {
                        assert(key_lt(r, rs[w]));
                    }
                }
                assert(k - 1 == w) by {
                    if w < k - 1 {
                        assert(key_lt(rs[w], rs[k - 1]));
                        assert(key_lt(rs[k - 1], r));
                        assert(rs[k - 1].stream_id.0 == s.0);
                    }
                }
                assert(out[k - 1] == rs[w]);
            } else {
                if k > 0 {
                    assert(out[k - 1] == rs[k - 1]);
                    assert(rs[k - 1].stream_id != s);
                }
            }
        } else if i == k + 1 {
            assert(out[i] == rs[k]);
            assert(key_lt(r, rs[k]));
            assert(rs[k].stream_id != s) by {
                if rs[k].stream_id == s {
                    assert(next_after(rs[k].sequence) <= stream_next(rs, s));
                }
            }
            assert(rs[k].sequence == expected_sequence(rs, k));
            if k > 0 {
                assert(rs[k - 1].stream_id != rs[k].stream_id) by {
                    assert(key_lt(rs[k - 1], r));
                    if rs[k - 1].stream_id == rs[k].stream_id {
                        assert(r.stream_id.0 == rs[k].stream_id.0);
                    }
                }
            }
        } else {
            assert(out[i] == rs[i - 1]);
            assert(out[i - 1] == rs[i - 2]);
            assert(rs[i - 1].sequence == expected_sequence(rs, i - 1));
        }
    }
}

/// Every stream's receiver, admitted or fresh, expects the sequence just past
/// that stream's receipts.
pub open spec fn receivers_track_receipts(v: DurableShardView) -> bool {
    forall|st: StreamId| #[trigger] receiver_of(v, st).next_sequence == stream_next(v.receipts, st)
}

/// The state every reachable shard is in: its receipts and WAL correspond
/// one to one, each stream's receipts are contiguous from zero, and receivers
/// resume where the receipts end.
#[verifier::opaque]
pub open spec fn shard_consistent(v: DurableShardView) -> bool {
    &&& receipts_match(shard_snapshot(v))
    &&& streams_contiguous(v.receipts)
    &&& receivers_track_receipts(v)
}

/// Replacing (or admitting) the receiver of `stream` changes what
/// `receiver_of` gives for that stream only.
pub proof fn lemma_receiver_of_updated(
    v: DurableShardView,
    w: DurableShardView,
    stream: StreamId,
    upd: ReliableReceiver,
    st: StreamId,
)
    requires
        forall|a: int, b: int|
            0 <= a < b < v.receivers.len() ==> (#[trigger] v.receivers[a]).stream != (#[trigger] v.receivers[b]).stream,
        upd.stream == stream,
        w.receivers == receivers_with(v.receivers, stream, upd),
        w.brain_id == v.brain_id,
        w.lease_term == v.lease_term,
        w.partition_generation == v.partition_generation,
        w.max_payload == v.max_payload,
    ensures
        receiver_of(w, st) == (if st == stream {
            upd
        } else {
            receiver_of(v, st)
        }),
{
    let rs = v.receivers;
    let ws = w.receivers;
    if has_receiver(rs, stream) {
        let i = choose|i: int| 0 <= i < rs.len() && (#[trigger] rs[i]).stream == stream;
        assert(ws == rs.update(i, upd));
        if st == stream {
            assert(ws[i].stream == stream);
            assert(has_receiver(ws, st));
            let j = choose|j: int| 0 <= j < ws.len() && (#[trigger] ws[j]).stream == st;
            assert(j == i) by {
                if j != i {
                    assert(ws[j] == rs[j]);
                    if j < i {
                        assert(rs[j].stream != rs[i].stream);
                    } else {
                        assert(rs[i].stream != rs[j].stream);
                    }
                }
            }
        } else {
            if has_receiver(rs, st) {
                let a = choose|a: int| 0 <= a < rs.len() && (#[trigger] rs[a]).stream == st;
                assert(a != i);
                assert(ws[a] == rs[a]);
                assert(has_receiver(ws, st));
                let j = choose|j: int| 0 <= j < ws.len() && (#[trigger] ws[j]).stream == st;
                assert(j != i);
                assert(ws[j] == rs[j]);
                assert(j == a) by {
                    if j < a {
                        assert(rs[j].stream != rs[a].stream);
                    } else if j > a {
                        assert(rs[a].stream != rs[j].stream);
                    }
                }
            } else {
                if has_receiver(ws, st) {
                    let j = choose|j: int| 0 <= j < ws.len() && (#[trigger] ws[j]).stream == st;
                    if j != i {
                        assert(ws[j] == rs[j]);
                    }
                }
            }
        }
    } else {
        assert(ws == rs.push(upd));
        let n = rs.len() as int;
        if st == stream {
            assert(ws[n].stream == stream);
            let j = choose|j: int| 0 <= j < ws.len() && (#[trigger] ws[j]).stream == st;
            assert(j == n) by {
                if j < n {
                    assert(ws[j] == rs[j]);
                }
            }
        } else {
            if has_receiver(rs, st) {
                let a = choose|a: int| 0 <= a < rs.len() && (#[trigger] rs[a]).stream == st;
                assert(ws[a] == rs[a]);
                let j = choose|j: int| 0 <= j < ws.len() && (#[trigger] ws[j]).stream == st;
                assert(j < n);
                assert(ws[j] == rs[j]);
                assert(j == a) by {
                    if j < a {
                        assert(rs[j].stream != rs[a].stream);
                    } else if j > a {
                        assert(rs[a].stream != rs[j].stream);
                    }
                }
            } else {
                if has_receiver(ws, st) {
                    let j = choose|j: int| 0 <= j < ws.len() && (#[trigger] ws[j]).stream == st;
                    if j < n {
                        assert(ws[j] == rs[j]);
                    }
                }
            }
        }
    }
}

/// Committing a staged event keeps a shard consistent.
pub proof fn lemma_commit_consistent(
    v: DurableShardView,
    env: CausalEnvelope,
    channel: Seq<u8>,
    bio: Seq<u8>,
    receipts: Seq<DurableReceipt>,
)
    requires
        shard_consistent(v),
        receivers_wf(v),
        sorted_by_key(v.receipts),
        events_unique(v.receipts),
        apply_verdict(v, env) is Stage,
        inserted_in_order(
            v.receipts,
            event_receipt(env.stream, env.sequence, envelope_event(env), env.lease_term, env.partition_generation),
            receipts,
        ),
    ensures
        shard_consistent(committed(v, env, channel, bio, receipts)),
{
    reveal(shard_consistent);
    let w = committed(v, env, channel, bio, receipts);
    let receiver = receiver_of(v, env.stream);
    let r = event_receipt(env.stream, env.sequence, envelope_event(env), env.lease_term, env.partition_generation);
    let k = choose|k: int|
        0 <= k <= v.receipts.len() && receipts == v.receipts.insert(k, r) && (forall|i: int|
            0 <= i < k ==> key_lt(#[trigger] v.receipts[i], r)) && (forall|i: int|
            k <= i < v.receipts.len() ==> key_lt(r, #[trigger] v.receipts[i]));
    // What the receiver's acceptance says about the envelope.
    assert(receive_verdict(receiver, env) matches Ok(ReceiveResult::Accepted { .. }));
    assert(receiver.lease_term == v.lease_term && receiver.partition_generation == v.partition_generation
        && receiver.stream == env.stream) by {
        if has_receiver(v.receivers, env.stream) {
            let i = choose|i: int| 0 <= i < v.receivers.len() && (#[trigger] v.receivers[i]).stream == env.stream;
            assert(receiver == v.receivers[i]);
        }
    }
    assert(env.sequence == receiver.next_sequence);
    assert(receiver.next_sequence == stream_next(v.receipts, env.stream));
    assert(!has_event(v.receipts, env.event));
    // Streams stay contiguous and the stream's next sequence moves on.
    lemma_insert_next_receipt(v.receipts, r, k);
    // Receivers track the new receipts.
    let upd = ReliableReceiver {
        next_sequence: (receiver.next_sequence + 1) as u64,
        last_tag: Some(env.tag),
        ..receiver
    };
    assert forall|st: StreamId| #[trigger] receiver_of(w, st).next_sequence == stream_next(w.receipts, st) by {
        lemma_receiver_of_updated(v, w, env.stream, upd, st);
    }
    // Receipts and WAL still correspond.
    let old_wal = v.wal;
    let rec = next_record(v.wal, v.lease_term, envelope_event(env), Some(envelope_replay(env)), Some(channel));
    assert(w.wal == old_wal.push(rec));
    let p = shard_snapshot(w);
    let q = shard_snapshot(v);
    assert(forall|j: int| 0 <= j < old_wal.len() ==> (#[trigger] old_wal[j]).event != env.event) by {
        assert forall|j: int| 0 <= j < old_wal.len() implies (#[trigger] old_wal[j]).event != env.event by {
            assert(has_event(v.receipts, q.causal_state[j].event));
        }
    }
    assert forall|i: int| 0 <= i < p.receipts.len() implies receipt_backed(
        #[trigger] p.receipts[i],
        p.causal_state,
        p.lease_term,
        p.partition_generation,
    ) by {
        if i == k {
            assert(p.receipts[i] == r);
            let n = old_wal.len() as int;
            assert(p.causal_state[n] == rec);
            assert(first_with_event(p.causal_state, r.event_id, n)) by {
                assert forall|m: int| 0 <= m < n implies (#[trigger] p.causal_state[m]).event != r.event_id by {
                    assert(p.causal_state[m] == old_wal[m]);
                }
            }
        } else {
            let o = if i < k { i } else { i - 1 };
            assert(p.receipts[i] == v.receipts[o]);
            assert(receipt_backed(q.receipts[o], q.causal_state, q.lease_term, q.partition_generation));
            let j = choose|j: int|
                #![trigger q.causal_state[j]]
                first_with_event(q.causal_state, v.receipts[o].event_id, j) && q.causal_state[j].tag == v.receipts[o].tag
                    && single_domain_digest("causal-payload".spec_bytes(), q.causal_state[j].payload)
                    == v.receipts[o].payload_digest;
            assert(p.causal_state[j] == q.causal_state[j]);
            assert(first_with_event(p.causal_state, v.receipts[o].event_id, j)) by {
                assert forall|m: int| 0 <= m < j implies (#[trigger] p.causal_state[m]).event != v.receipts[o].event_id by {
                    assert(p.causal_state[m] == q.causal_state[m]);
                }
            }
        }
    }
    assert forall|j: int| 0 <= j < p.causal_state.len() implies has_event(
        p.receipts,
        (#[trigger] p.causal_state[j]).event,
    ) by {
        if j < old_wal.len() {
            assert(p.causal_state[j] == q.causal_state[j]);
            assert(has_event(v.receipts, q.causal_state[j].event));
            let a = choose|a: int| 0 <= a < v.receipts.len() && (#[trigger] v.receipts[a]).event_id == q.causal_state[j].event;
            if a < k {
                assert(p.receipts[a] == v.receipts[a]);
            } else {
                assert(p.receipts[a + 1] == v.receipts[a]);
            }
        } else {
            assert(p.receipts[k] == r);
        }
    }
}

/// Re-signing receipts under another term keeps every stream's progress.
pub proof fn lemma_stream_next_retermed(rs: Seq<DurableReceipt>, term: LeaseTerm, st: StreamId)
    ensures
        stream_next(rs.map_values(|x: DurableReceipt| receipt_with_term(x, term)), st) == stream_next(rs, st),
    decreases rs.len(),
{
    if rs.len() > 0 {
        let m = rs.map_values(|x: DurableReceipt| receipt_with_term(x, term));
        assert(m.drop_last() =~= rs.drop_last().map_values(|x: DurableReceipt| receipt_with_term(x, term)));
        lemma_stream_next_retermed(rs.drop_last(), term, st);
    }
}

/// Promotion to a newer term keeps a shard consistent.
pub proof fn lemma_reissue_consistent(v: DurableShardView, w: DurableShardView, term: LeaseTerm)
    requires
        shard_consistent(v),
        receivers_wf(v),
        is_retermed(v.wal, w.wal, term),
        w == (DurableShardView {
            lease_term: term,
            receivers: reissued_receivers(v, term),
            wal: w.wal,
            receipts: v.receipts.map_values(|x: DurableReceipt| receipt_with_term(x, term)),
            ..v
        }),
    ensures
        shard_consistent(w),
{
    reveal(shard_consistent);
    let p = shard_snapshot(w);
    let q = shard_snapshot(v);
    assert(p.receipts.len() == q.receipts.len());
    assert forall|i: int| 0 <= i < p.receipts.len() implies receipt_backed(
        #[trigger] p.receipts[i],
        p.causal_state,
        p.lease_term,
        p.partition_generation,
    ) by {
        assert(receipt_backed(q.receipts[i], q.causal_state, q.lease_term, q.partition_generation));
        let e = q.receipts[i].event_id;
        let j = choose|j: int|
            #![trigger q.causal_state[j]]
            first_with_event(q.causal_state, e, j) && q.causal_state[j].tag == q.receipts[i].tag && single_domain_digest(
                "causal-payload".spec_bytes(),
                q.causal_state[j].payload,
            ) == q.receipts[i].payload_digest;
        assert(p.causal_state[j].event == q.causal_state[j].event);
        assert(p.causal_state[j].tag == q.causal_state[j].tag);
        assert(p.causal_state[j].payload == q.causal_state[j].payload);
        assert(first_with_event(p.causal_state, e, j)) by {
            assert forall|m: int| 0 <= m < j implies (#[trigger] p.causal_state[m]).event != e by {
                assert(p.causal_state[m].event == q.causal_state[m].event);
            }
        }
    }
    assert forall|j: int| 0 <= j < p.causal_state.len() implies has_event(
        p.receipts,
        (#[trigger] p.causal_state[j]).event,
    ) by {
        assert(p.causal_state[j].event == q.causal_state[j].event);
        assert(has_event(q.receipts, q.causal_state[j].event));
        let a = choose|a: int| 0 <= a < q.receipts.len() && (#[trigger] q.receipts[a]).event_id == q.causal_state[j].event;
        assert(p.receipts[a].event_id == q.receipts[a].event_id);
    }
    assert forall|i: int| 0 <= i < w.receipts.len() implies (#[trigger] w.receipts[i]).sequence < u64::MAX
        && w.receipts[i].sequence == expected_sequence(w.receipts, i) by {
        assert(w.receipts[i].sequence == v.receipts[i].sequence);
        assert(v.receipts[i].sequence == expected_sequence(v.receipts, i));
        if i > 0 {
            assert(w.receipts[i - 1].stream_id == v.receipts[i - 1].stream_id);
        }
    }
    let n = v.receivers.len() as int;
    assert forall|st: StreamId| #[trigger] receiver_of(w, st).next_sequence == stream_next(w.receipts, st) by {
        lemma_stream_next_retermed(v.receipts, term, st);
        let ws = w.receivers;
        let rs = v.receivers;
        assert(forall|a: int| 0 <= a < n ==> (#[trigger] ws[a]).stream == rs[a].stream);
        assert(forall|a: int| 0 <= a < n ==> (#[trigger] ws[a]).next_sequence == stream_next(v.receipts, rs[a].stream));
        if has_receiver(ws, st) {
            let j = choose|j: int| 0 <= j < ws.len() && (#[trigger] ws[j]).stream == st;
            if j < n {
                assert(ws[j].next_sequence == stream_next(v.receipts, st));
            } else {
                assert(!has_receiver(rs, v.stream_id));
                assert(st == v.stream_id);
                assert(receiver_of(v, st).next_sequence == 0);
            }
        } else {
            assert(!has_receiver(rs, st)) by {
                if has_receiver(rs, st) {
                    let a = choose|a: int| 0 <= a < rs.len() && (#[trigger] rs[a]).stream == st;
                    assert(ws[a].stream == st);
                }
            }
            assert(receiver_of(v, st).next_sequence == 0);
        }
    }
}

/// A shard restored from a restorable checkpoint is consistent.
pub proof fn lemma_restore_consistent(v: DurableShardView, p: ShardCheckpointView)
    requires
        restorable(p),
        receivers_restored(v.receivers, p, v.stream_id, v.max_payload),
        v.lease_term == p.lease_term,
        v.partition_generation == p.partition_generation,
        v.wal == p.causal_state,
        v.receipts == p.receipts,
        v.brain_id == p.brain_id,
    ensures
        shard_consistent(v),
{
    reveal(shard_consistent);
    reveal(receivers_restored);
    assert(shard_snapshot(v).causal_state == p.causal_state);
    assert forall|st: StreamId| #[trigger] receiver_of(v, st).next_sequence == stream_next(v.receipts, st) by {
        if has_receiver(v.receivers, st) {
            let j = choose|j: int| 0 <= j < v.receivers.len() && (#[trigger] v.receivers[j]).stream == st;
            assert(v.receivers[j] == restored_receiver(p, v.receivers[j].stream, v.max_payload));
        } else {
            assert(!has_stream(p.receipts, st));
            lemma_stream_next_absent(p.receipts, st);
        }
    }
}

/// A shard with no receipt, no WAL record and one fresh receiver is
/// consistent.
pub proof fn lemma_new_consistent(v: DurableShardView)
    requires
        v.receipts.len() == 0,
        v.wal.len() == 0,
        v.receivers.len() == 1,
        v.receivers[0].next_sequence == 0,
    ensures
        shard_consistent(v),
{
    reveal(shard_consistent);
    assert forall|st: StreamId| #[trigger] receiver_of(v, st).next_sequence == stream_next(v.receipts, st) by {
        if has_receiver(v.receivers, st) {
            let j = choose|j: int| 0 <= j < v.receivers.len() && (#[trigger] v.receivers[j]).stream == st;
            assert(j == 0);
        }
    }
}

/// Consistency reads only receipts, WAL, receivers and the shard's identity.
pub proof fn lemma_consistent_same_core(v: DurableShardView, w: DurableShardView)
    requires
        shard_consistent(v),
        w.receipts == v.receipts,
        w.wal == v.wal,
        w.receivers == v.receivers,
        w.lease_term == v.lease_term,
        w.partition_generation == v.partition_generation,
        w.brain_id == v.brain_id,
        w.max_payload == v.max_payload,
    ensures
        shard_consistent(w),
{
    reveal(shard_consistent);
    assert(receipts_match(shard_snapshot(w)) == receipts_match(shard_snapshot(v)));
    assert forall|st: StreamId| #[trigger] receiver_of(w, st).next_sequence == stream_next(w.receipts, st) by {
        assert(receiver_of(w, st) == receiver_of(v, st));
    }
}

/// Applying the same envelope again after it was committed is answered as a
/// duplicate: by the contract of `apply_once`, that returns `Duplicate` and
/// changes nothing, without consulting the transition.
pub proof fn lemma_replay_is_duplicate(
    v: DurableShardView,
    env: CausalEnvelope,
    channel: Seq<u8>,
    bio: Seq<u8>,
    receipts: Seq<DurableReceipt>,
)
    requires
        receivers_wf(v),
        apply_verdict(v, env) is Stage,
        inserted_in_order(
            v.receipts,
            event_receipt(env.stream, env.sequence, envelope_event(env), env.lease_term, env.partition_generation),
            receipts,
        ),
    ensures
        apply_verdict(committed(v, env, channel, bio, receipts), env) is Duplicate,
{
    let w = committed(v, env, channel, bio, receipts);
    let receiver = receiver_of(v, env.stream);
    let upd = ReliableReceiver {
        next_sequence: (receiver.next_sequence + 1) as u64,
        last_tag: Some(env.tag),
        ..receiver
    };
    lemma_receiver_of_updated(v, w, env.stream, upd, env.stream);
    assert(receive_verdict(receiver, env) matches Ok(ReceiveResult::Accepted { .. }));
    assert(receive_verdict(upd, env) matches Ok(ReceiveResult::Duplicate { .. }));
    let r = event_receipt(env.stream, env.sequence, envelope_event(env), env.lease_term, env.partition_generation);
    let k = choose|k: int|
        0 <= k <= v.receipts.len() && receipts == v.receipts.insert(k, r) && (forall|i: int|
            0 <= i < k ==> key_lt(#[trigger] v.receipts[i], r)) && (forall|i: int|
            k <= i < v.receipts.len() ==> key_lt(r, #[trigger] v.receipts[i]));
    assert(receipts[k] == r);
    assert(has_key(receipts, env.stream, env.sequence));
    assert(receipts.contains(r));
}

} // verus!
