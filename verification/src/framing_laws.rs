//! The canonical framing can be read back: each frame tells where it ends,
//! so equal framings of durable state come from equal state.

use crate::digest::{lemma_u32_be_injective, lemma_u64_be_injective, u32_be, u64_be};
use crate::framing::{
    bytes_frame, cursor_frame, cursors_frame, digest_frame, lemma_concat_assoc, lemma_split_equal, neuron_opt,
    opt_bytes_frame, opt_u64_frame, record_frame, records_frame, replay_fields_frame, replay_frame, tag_frame,
};
use crate::ids::{LogicalTag, StateDigest};
use crate::peripheral::PeripheralCursor;
use crate::data_plane::stage_code_spec;
use crate::wal::{WalRecordView, WalReplayMetadata};
use vstd::prelude::*;

verus! {

pub proof fn lemma_u64_prefix(a: u64, r1: Seq<u8>, b: u64, r2: Seq<u8>)
    requires
        u64_be(a) + r1 == u64_be(b) + r2,
    ensures
        a == b,
        r1 == r2,
{
    lemma_split_equal(u64_be(a), r1, u64_be(b), r2);
    lemma_u64_be_injective(a, b);
}

pub proof fn lemma_u32_prefix(a: u32, r1: Seq<u8>, b: u32, r2: Seq<u8>)
    requires
        u32_be(a) + r1 == u32_be(b) + r2,
    ensures
        a == b,
        r1 == r2,
{
    lemma_split_equal(u32_be(a), r1, u32_be(b), r2);
    lemma_u32_be_injective(a, b);
}

pub proof fn lemma_tag_prefix(a: LogicalTag, r1: Seq<u8>, b: LogicalTag, r2: Seq<u8>)
    requires
        tag_frame(a) + r1 == tag_frame(b) + r2,
    ensures
        a == b,
        r1 == r2,
{
    lemma_concat_assoc(u64_be(a.tick), u32_be(a.microstep), r1);
    lemma_concat_assoc(u64_be(b.tick), u32_be(b.microstep), r2);
    lemma_u64_prefix(a.tick, u32_be(a.microstep) + r1, b.tick, u32_be(b.microstep) + r2);
    lemma_u32_prefix(a.microstep, r1, b.microstep, r2);
}

pub proof fn lemma_digest_prefix(a: StateDigest, r1: Seq<u8>, b: StateDigest, r2: Seq<u8>)
    requires
        digest_frame(a) + r1 == digest_frame(b) + r2,
    ensures
        a == b,
        r1 == r2,
{
    lemma_concat_assoc(u64_be(a.high), u64_be(a.low), r1);
    lemma_concat_assoc(u64_be(b.high), u64_be(b.low), r2);
    lemma_u64_prefix(a.high, u64_be(a.low) + r1, b.high, u64_be(b.low) + r2);
    lemma_u64_prefix(a.low, r1, b.low, r2);
}

pub proof fn lemma_bytes_prefix(x: Seq<u8>, r1: Seq<u8>, y: Seq<u8>, r2: Seq<u8>)
    requires
        x.len() <= u64::MAX,
        y.len() <= u64::MAX,
        bytes_frame(x) + r1 == bytes_frame(y) + r2,
    ensures
        x == y,
        r1 == r2,
{
    lemma_concat_assoc(u64_be(x.len() as u64), x, r1);
    lemma_concat_assoc(u64_be(y.len() as u64), y, r2);
    lemma_u64_prefix(x.len() as u64, x + r1, y.len() as u64, y + r2);
    lemma_split_equal(x, r1, y, r2);
}

pub proof fn lemma_opt_u64_prefix(a: Option<u64>, r1: Seq<u8>, b: Option<u64>, r2: Seq<u8>)
    requires
        opt_u64_frame(a) + r1 == opt_u64_frame(b) + r2,
    ensures
        a == b,
        r1 == r2,
{
    let fa = opt_u64_frame(a);
    let fb = opt_u64_frame(b);
    assert((fa + r1)[0] == fa[0]);
    assert((fb + r2)[0] == fb[0]);
    match (a, b) {
        (Some(x), Some(y)) => {
            lemma_concat_assoc(seq![1u8], u64_be(x), r1);
            lemma_concat_assoc(seq![1u8], u64_be(y), r2);
            lemma_split_equal(seq![1u8], u64_be(x) + r1, seq![1u8], u64_be(y) + r2);
            lemma_u64_prefix(x, r1, y, r2);
        },
        (None, None) => {
            lemma_split_equal(fa, r1, fb, r2);
        },
        _ => {},
    }
}

pub proof fn lemma_opt_bytes_prefix(a: Option<Seq<u8>>, r1: Seq<u8>, b: Option<Seq<u8>>, r2: Seq<u8>)
    requires
        a matches Some(x) ==> x.len() <= u64::MAX,
        b matches Some(y) ==> y.len() <= u64::MAX,
        opt_bytes_frame(a) + r1 == opt_bytes_frame(b) + r2,
    ensures
        a == b,
        r1 == r2,
{
    let fa = opt_bytes_frame(a);
    let fb = opt_bytes_frame(b);
    assert((fa + r1)[0] == fa[0]);
    assert((fb + r2)[0] == fb[0]);
    match (a, b) {
        (Some(x), Some(y)) => {
            lemma_concat_assoc(seq![1u8], bytes_frame(x), r1);
            lemma_concat_assoc(seq![1u8], bytes_frame(y), r2);
            lemma_split_equal(seq![1u8], bytes_frame(x) + r1, seq![1u8], bytes_frame(y) + r2);
            lemma_bytes_prefix(x, r1, y, r2);
        },
        (None, None) => {
            lemma_split_equal(fa, r1, fb, r2);
        },
        _ => {},
    }
}

proof fn lemma_replay_fields_prefix(x: WalReplayMetadata, r1: Seq<u8>, y: WalReplayMetadata, r2: Seq<u8>)
    requires
        replay_fields_frame(x) + r1 == replay_fields_frame(y) + r2,
    ensures
        x == y,
        r1 == r2,
{
    let a1 = u64_be(x.stream_id.0);
    let a2 = u64_be(x.producer_sequence);
    let a3 = u64_be(x.route.0);
    let a4 = u64_be(x.partition_generation.0);
    let a5 = opt_u64_frame(neuron_opt(x.source));
    let a6 = opt_u64_frame(neuron_opt(x.target));
    let a7 = seq![stage_code_spec(x.stage), if x.deferred_from_nonconvergence { 1u8 } else { 0u8 }];
    let b1 = u64_be(y.stream_id.0);
    let b2 = u64_be(y.producer_sequence);
    let b3 = u64_be(y.route.0);
    let b4 = u64_be(y.partition_generation.0);
    let b5 = opt_u64_frame(neuron_opt(y.source));
    let b6 = opt_u64_frame(neuron_opt(y.target));
    let b7 = seq![stage_code_spec(y.stage), if y.deferred_from_nonconvergence { 1u8 } else { 0u8 }];
    lemma_concat_assoc(a1 + a2 + a3 + a4 + a5 + a6, a7, r1);
    lemma_concat_assoc(a1 + a2 + a3 + a4 + a5, a6, a7 + r1);
    lemma_concat_assoc(a1 + a2 + a3 + a4, a5, a6 + (a7 + r1));
    lemma_concat_assoc(a1 + a2 + a3, a4, a5 + (a6 + (a7 + r1)));
    lemma_concat_assoc(a1 + a2, a3, a4 + (a5 + (a6 + (a7 + r1))));
    lemma_concat_assoc(a1, a2, a3 + (a4 + (a5 + (a6 + (a7 + r1)))));
    lemma_concat_assoc(b1 + b2 + b3 + b4 + b5 + b6, b7, r2);
    lemma_concat_assoc(b1 + b2 + b3 + b4 + b5, b6, b7 + r2);
    lemma_concat_assoc(b1 + b2 + b3 + b4, b5, b6 + (b7 + r2));
    lemma_concat_assoc(b1 + b2 + b3, b4, b5 + (b6 + (b7 + r2)));
    lemma_concat_assoc(b1 + b2, b3, b4 + (b5 + (b6 + (b7 + r2))));
    lemma_concat_assoc(b1, b2, b3 + (b4 + (b5 + (b6 + (b7 + r2)))));
    lemma_u64_prefix(x.stream_id.0, a2 + (a3 + (a4 + (a5 + (a6 + (a7 + r1))))), y.stream_id.0, b2 + (b3 + (b4 + (
    b5 + (b6 + (b7 + r2))))));
    lemma_u64_prefix(x.producer_sequence, a3 + (a4 + (a5 + (a6 + (a7 + r1)))), y.producer_sequence, b3 + (b4 + (b5
        + (b6 + (b7 + r2)))));
    lemma_u64_prefix(x.route.0, a4 + (a5 + (a6 + (a7 + r1))), y.route.0, b4 + (b5 + (b6 + (b7 + r2))));
    lemma_u64_prefix(x.partition_generation.0, a5 + (a6 + (a7 + r1)), y.partition_generation.0, b5 + (b6 + (b7
        + r2)));
    lemma_opt_u64_prefix(neuron_opt(x.source), a6 + (a7 + r1), neuron_opt(y.source), b6 + (b7 + r2));
    lemma_opt_u64_prefix(neuron_opt(x.target), a7 + r1, neuron_opt(y.target), b7 + r2);
    lemma_split_equal(a7, r1, b7, r2);
    assert(a7[0] == b7[0] && a7[1] == b7[1]);
    assert(x.stage == y.stage);
    assert(x.deferred_from_nonconvergence == y.deferred_from_nonconvergence);
    assert(x.source == y.source);
    assert(x.target == y.target);
}

pub proof fn lemma_replay_prefix(a: Option<WalReplayMetadata>, r1: Seq<u8>, b: Option<WalReplayMetadata>, r2: Seq<u8>)
    requires
        replay_frame(a) + r1 == replay_frame(b) + r2,
    ensures
        a == b,
        r1 == r2,
{
    let fa = replay_frame(a);
    let fb = replay_frame(b);
    assert((fa + r1)[0] == fa[0]);
    assert((fb + r2)[0] == fb[0]);
    match (a, b) {
        (Some(x), Some(y)) => {
            lemma_concat_assoc(seq![1u8], replay_fields_frame(x), r1);
            lemma_concat_assoc(seq![1u8], replay_fields_frame(y), r2);
            lemma_split_equal(seq![1u8], replay_fields_frame(x) + r1, seq![1u8], replay_fields_frame(y) + r2);
            lemma_replay_fields_prefix(x, r1, y, r2);
        },
        (None, None) => {
            lemma_split_equal(fa, r1, fb, r2);
        },
        _ => {},
    }
}

/// The lengths a record's framing depends on fit its length fields.
pub open spec fn record_bounded(r: WalRecordView) -> bool {
    &&& r.payload.len() <= u64::MAX
    &&& (r.channel_state matches Some(c) ==> c.len() <= u64::MAX)
}

proof fn lemma_record_nested(a: WalRecordView, r: Seq<u8>)
    ensures
        record_frame(a) + r == u64_be(a.sequence) + (u64_be(a.lease_term.0) + (tag_frame(a.tag) + (u64_be(a.event.0) + (
        bytes_frame(a.payload) + (replay_frame(a.replay) + (opt_bytes_frame(a.channel_state) + (digest_frame(
            a.previous_digest,
        ) + (digest_frame(a.record_digest) + r)))))))),
{
    let x1 = u64_be(a.sequence);
    let x2 = u64_be(a.lease_term.0);
    let x3 = tag_frame(a.tag);
    let x4 = u64_be(a.event.0);
    let x5 = bytes_frame(a.payload);
    let x6 = replay_frame(a.replay);
    let x7 = opt_bytes_frame(a.channel_state);
    let x8 = digest_frame(a.previous_digest);
    let x9 = digest_frame(a.record_digest);
    let h2 = x1 + x2;
    let h3 = h2 + x3;
    let h4 = h3 + x4;
    let h5 = h4 + x5;
    let h6 = h5 + x6;
    let h7 = h6 + x7;
    let h8 = h7 + x8;
    assert(record_frame(a) == h8 + x9);
    lemma_concat_assoc(h8, x9, r);
    let t9 = x9 + r;
    lemma_concat_assoc(h7, x8, t9);
    let t8 = x8 + t9;
    lemma_concat_assoc(h6, x7, t8);
    let t7 = x7 + t8;
    lemma_concat_assoc(h5, x6, t7);
    let t6 = x6 + t7;
    lemma_concat_assoc(h4, x5, t6);
    let t5 = x5 + t6;
    lemma_concat_assoc(h3, x4, t5);
    let t4 = x4 + t5;
    lemma_concat_assoc(h2, x3, t4);
    let t3 = x3 + t4;
    lemma_concat_assoc(x1, x2, t3);
}

/// A record's framing tells where it ends.
pub proof fn lemma_record_prefix(a: WalRecordView, r1: Seq<u8>, b: WalRecordView, r2: Seq<u8>)
    requires
        record_bounded(a),
        record_bounded(b),
        record_frame(a) + r1 == record_frame(b) + r2,
    ensures
        a == b,
        r1 == r2,
{
    lemma_record_nested(a, r1);
    lemma_record_nested(b, r2);
    let a9 = digest_frame(a.record_digest) + r1;
    let b9 = digest_frame(b.record_digest) + r2;
    let a8 = digest_frame(a.previous_digest) + a9;
    let b8 = digest_frame(b.previous_digest) + b9;
    let a7 = opt_bytes_frame(a.channel_state) + a8;
    let b7 = opt_bytes_frame(b.channel_state) + b8;
    let a6 = replay_frame(a.replay) + a7;
    let b6 = replay_frame(b.replay) + b7;
    let a5 = bytes_frame(a.payload) + a6;
    let b5 = bytes_frame(b.payload) + b6;
    let a4 = u64_be(a.event.0) + a5;
    let b4 = u64_be(b.event.0) + b5;
    let a3 = tag_frame(a.tag) + a4;
    let b3 = tag_frame(b.tag) + b4;
    let a2 = u64_be(a.lease_term.0) + a3;
    let b2 = u64_be(b.lease_term.0) + b3;
    lemma_u64_prefix(a.sequence, a2, b.sequence, b2);
    lemma_u64_prefix(a.lease_term.0, a3, b.lease_term.0, b3);
    lemma_tag_prefix(a.tag, a4, b.tag, b4);
    lemma_u64_prefix(a.event.0, a5, b.event.0, b5);
    lemma_bytes_prefix(a.payload, a6, b.payload, b6);
    lemma_replay_prefix(a.replay, a7, b.replay, b7);
    lemma_opt_bytes_prefix(a.channel_state, a8, b.channel_state, b8);
    lemma_digest_prefix(a.previous_digest, a9, b.previous_digest, b9);
    lemma_digest_prefix(a.record_digest, r1, b.record_digest, r2);
    assert(a.lease_term == b.lease_term);
    assert(a.event == b.event);
}

/// The framing of records, read from the front.
pub proof fn lemma_records_front(rs: Seq<WalRecordView>)
    requires
        rs.len() > 0,
    ensures
        records_frame(rs) == record_frame(rs[0]) + records_frame(rs.drop_first()),
    decreases rs.len(),
{
    if rs.len() == 1 {
        assert(rs.drop_last() =~= Seq::<WalRecordView>::empty());
        assert(rs.drop_first() =~= Seq::<WalRecordView>::empty());
        assert(records_frame(rs.drop_last()) == Seq::<u8>::empty());
        assert(rs.last() == rs[0]);
        assert(records_frame(rs) == records_frame(rs.drop_last()) + record_frame(rs.last()));
        assert(Seq::<u8>::empty() + record_frame(rs[0]) =~= record_frame(rs[0]));
        assert(records_frame(rs.drop_first()) == Seq::<u8>::empty());
        assert(record_frame(rs[0]) + records_frame(rs.drop_first()) =~= record_frame(rs[0]));
    } else {
        let d = rs.drop_last();
        lemma_records_front(d);
        assert(d.drop_first() =~= rs.drop_first().drop_last());
        assert(rs.drop_first().last() == rs.last());
        assert(d[0] == rs[0]);
        lemma_concat_assoc(record_frame(rs[0]), records_frame(d.drop_first()), record_frame(rs.last()));
    }
}

/// Framings of equally many records tell where they end.
pub proof fn lemma_records_prefix(a: Seq<WalRecordView>, r1: Seq<u8>, b: Seq<WalRecordView>, r2: Seq<u8>)
    requires
        a.len() == b.len(),
        forall|i: int| 0 <= i < a.len() ==> record_bounded(#[trigger] a[i]),
        forall|i: int| 0 <= i < b.len() ==> record_bounded(#[trigger] b[i]),
        records_frame(a) + r1 == records_frame(b) + r2,
    ensures
        a == b,
        r1 == r2,
    decreases a.len(),
{
    if a.len() == 0 {
        assert(records_frame(a) == Seq::<u8>::empty());
        assert(records_frame(b) == Seq::<u8>::empty());
        assert(records_frame(a) + r1 =~= r1);
        assert(records_frame(b) + r2 =~= r2);
    } else {
        lemma_records_front(a);
        lemma_records_front(b);
        let ra = records_frame(a.drop_first());
        let rb = records_frame(b.drop_first());
        lemma_concat_assoc(record_frame(a[0]), ra, r1);
        lemma_concat_assoc(record_frame(b[0]), rb, r2);
        lemma_record_prefix(a[0], ra + r1, b[0], rb + r2);
        assert forall|i: int| 0 <= i < a.drop_first().len() implies record_bounded(#[trigger] a.drop_first()[i]) by {
            assert(a.drop_first()[i] == a[i + 1]);
        }
        assert forall|i: int| 0 <= i < b.drop_first().len() implies record_bounded(#[trigger] b.drop_first()[i]) by {
            assert(b.drop_first()[i] == b[i + 1]);
        }
        lemma_records_prefix(a.drop_first(), r1, b.drop_first(), r2);
        assert forall|i: int| 0 <= i < a.len() implies a[i] == b[i] by {
            if i > 0 {
                assert(a[i] == a.drop_first()[i - 1]);
                assert(b[i] == b.drop_first()[i - 1]);
            }
        }
    }
    assert(a =~= b);
}

pub proof fn lemma_cursors_frame_len(cs: Seq<PeripheralCursor>)
    ensures
        cursors_frame(cs).len() == 24 * cs.len(),
    decreases cs.len(),
{
    if cs.len() > 0 {
        lemma_cursors_frame_len(cs.drop_last());
    }
}

pub proof fn lemma_cursors_frame_injective(a: Seq<PeripheralCursor>, b: Seq<PeripheralCursor>)
    requires
        a.len() == b.len(),
        cursors_frame(a) == cursors_frame(b),
    ensures
        a == b,
    decreases a.len(),
{
    if a.len() > 0 {
        lemma_cursors_frame_len(a.drop_last());
        lemma_cursors_frame_len(b.drop_last());
        lemma_split_equal(
            cursors_frame(a.drop_last()),
            cursor_frame(a.last()),
            cursors_frame(b.drop_last()),
            cursor_frame(b.last()),
        );
        let x = a.last();
        let y = b.last();
        lemma_concat_assoc(u64_be(x.channel), u64_be(x.position), u64_be(x.lease_term.0));
        lemma_concat_assoc(u64_be(y.channel), u64_be(y.position), u64_be(y.lease_term.0));
        lemma_u64_prefix(x.channel, u64_be(x.position) + u64_be(x.lease_term.0), y.channel, u64_be(y.position) + u64_be(
            y.lease_term.0,
        ));
        lemma_split_equal(u64_be(x.position), u64_be(x.lease_term.0), u64_be(y.position), u64_be(y.lease_term.0));
        lemma_u64_be_injective(x.position, y.position);
        lemma_u64_be_injective(x.lease_term.0, y.lease_term.0);
        lemma_cursors_frame_injective(a.drop_last(), b.drop_last());
        assert(a =~= a.drop_last().push(x));
        assert(b =~= b.drop_last().push(y));
    } else {
        assert(a =~= b);
    }
}

} // verus!
