//! The orchestrator's handling of one worker heartbeat: refusing workers it
//! does not know, consuming activation results, pruning workers whose last
//! heartbeat is too old, refreshing the worker's peer address, and handing
//! out its queued commands and the fresh peer map. The time is passed in as
//! milliseconds; the RPC plumbing stays with the caller.

use crate::cluster::{CommandType, NetworkCommand, NetworkCommandView};
use crate::endpoints::{normalize_peer_address, peer_address_spec, remote_view, RemotePeer};
use crate::placement::{listed, unlisted, LayerDistribution, LayerRangeView};
use crate::endpoints::strings_view;
use crate::placement::{str_less, str_lt};
use vstd::prelude::*;

verus! {

/// How long a worker may stay silent before it is pruned, in milliseconds.
pub open spec fn stale_after_ms() -> nat {
    20000
}

/// A heartbeat taken at `last` is stale at `now`: more than the bound has
/// passed (time that runs backwards counts as none).
pub open spec fn is_stale(last: Option<u64>, now: u64) -> bool {
    last matches Some(t) && now > t && now - t > stale_after_ms()
}

/// A worker known to the orchestrator.
#[derive(Clone, Debug)]
pub struct RegisteredNode {
    pub node_id: String,
    pub address: String,
    /// When its last heartbeat arrived; none before the first.
    pub last_heartbeat_ms: Option<u64>,
}

pub struct NodeView {
    pub node_id: Seq<char>,
    pub address: Seq<char>,
    pub last_heartbeat_ms: Option<u64>,
}

pub open spec fn node_view(n: RegisteredNode) -> NodeView {
    NodeView { node_id: n.node_id@, address: n.address@, last_heartbeat_ms: n.last_heartbeat_ms }
}

pub open spec fn nodes_view(v: Seq<RegisteredNode>) -> Seq<NodeView> {
    v.map_values(|n: RegisteredNode| node_view(n))
}

/// The identity an activation command is acknowledged by.
#[derive(Clone, Debug)]
pub struct ActivationIdentity {
    pub network_id: String,
    pub request_id: String,
    pub manifest_digest: String,
    pub placement_idempotency_key: String,
}

/// A command queued for a worker; an activation command carries the
/// identity its result must name.
#[derive(Clone, Debug)]
pub struct QueuedCommand {
    pub command: NetworkCommand,
    pub activation: Option<ActivationIdentity>,
}

/// A worker's result for an activation command.
#[derive(Clone, Debug)]
pub struct ActivationResult {
    pub command_type: CommandType,
    pub network_id: String,
    pub request_id: String,
    pub manifest_digest: String,
    pub placement_idempotency_key: String,
    pub brain_id: u64,
    pub accepted: bool,
    pub error: String,
}

pub struct IdentityView {
    pub network_id: Seq<char>,
    pub request_id: Seq<char>,
    pub manifest_digest: Seq<char>,
    pub placement_idempotency_key: Seq<char>,
}

pub struct QueuedView {
    pub command: NetworkCommandView,
    pub activation: Option<IdentityView>,
}

pub struct ResultView {
    pub command_type: CommandType,
    pub network_id: Seq<char>,
    pub request_id: Seq<char>,
    pub manifest_digest: Seq<char>,
    pub placement_idempotency_key: Seq<char>,
    pub brain_id: u64,
    pub accepted: bool,
    pub error: Seq<char>,
}

pub open spec fn identity_view(a: ActivationIdentity) -> IdentityView {
    IdentityView {
        network_id: a.network_id@,
        request_id: a.request_id@,
        manifest_digest: a.manifest_digest@,
        placement_idempotency_key: a.placement_idempotency_key@,
    }
}

pub open spec fn queued_view(q: QueuedCommand) -> QueuedView {
    QueuedView {
        command: q.command@,
        activation: match q.activation {
            Some(a) => Some(identity_view(a)),
            None => None,
        },
    }
}

pub open spec fn queue_view(q: Seq<QueuedCommand>) -> Seq<QueuedView> {
    q.map_values(|c: QueuedCommand| queued_view(c))
}

pub open spec fn result_view(r: ActivationResult) -> ResultView {
    ResultView {
        command_type: r.command_type,
        network_id: r.network_id@,
        request_id: r.request_id@,
        manifest_digest: r.manifest_digest@,
        placement_idempotency_key: r.placement_idempotency_key@,
        brain_id: r.brain_id,
        accepted: r.accepted,
        error: r.error@,
    }
}

/// The orchestrator's record of its workers.
pub struct OrchestratorState {
    pub nodes: Vec<RegisteredNode>,
    /// Connect address of each worker.
    pub peers: Vec<(String, String)>,
    /// Commands queued for each worker.
    pub pending_commands: Vec<(String, Vec<QueuedCommand>)>,
    /// Acknowledged activation results, by worker.
    pub activation_results: Vec<(String, ActivationResult)>,
    /// Each network's placement.
    pub distributions: Vec<(String, LayerDistribution)>,
}

pub struct OrchestratorView {
    pub nodes: Seq<NodeView>,
    pub peers: Seq<(Seq<char>, Seq<char>)>,
    pub pending_commands: Seq<(Seq<char>, Seq<QueuedView>)>,
    pub activation_results: Seq<(Seq<char>, ResultView)>,
    pub distributions: Seq<(Seq<char>, Seq<(Seq<char>, LayerRangeView)>)>,
}

impl View for OrchestratorState {
    type V = OrchestratorView;

    open spec fn view(&self) -> OrchestratorView {
        OrchestratorView {
            nodes: nodes_view(self.nodes@),
            peers: peers_view(self.peers@),
            pending_commands: pending_view(self.pending_commands@),
            activation_results: store_view(self.activation_results@),
            distributions: dists_view(self.distributions@),
        }
    }
}

impl OrchestratorState {
    /// Every placement is well formed.
    pub open spec fn wf(&self) -> bool {
        forall|i: int| 0 <= i < self.distributions@.len() ==> (#[trigger] self.distributions@[i]).1.wf()
    }
}

/// Whether the orchestrator knows a worker with this id.
pub open spec fn knows(nodes: Seq<NodeView>, id: Seq<char>) -> bool {
    exists|i: int| 0 <= i < nodes.len() && (#[trigger] nodes[i]).node_id == id
}

/// Some record of `id` is stale at `now`.
pub open spec fn stale_id(nodes: Seq<NodeView>, now: u64, id: Seq<char>) -> bool {
    exists|i: int| 0 <= i < nodes.len() && (#[trigger] nodes[i]).node_id == id && is_stale(
        nodes[i].last_heartbeat_ms,
        now,
    )
}

/// The node records after `id`'s heartbeat at `now`.
pub open spec fn touched(nodes: Seq<NodeView>, id: Seq<char>, now: u64) -> Seq<NodeView> {
    nodes.map_values(
        |n: NodeView| if n.node_id == id {
            NodeView { last_heartbeat_ms: Some(now), ..n }
        } else {
            n
        },
    )
}

pub open spec fn keep_node(nodes: Seq<NodeView>, now: u64) -> spec_fn(NodeView) -> bool {
    |n: NodeView| !stale_id(nodes, now, n.node_id)
}

pub open spec fn keep_keyed<V>(nodes: Seq<NodeView>, now: u64) -> spec_fn((Seq<char>, V)) -> bool {
    |e: (Seq<char>, V)| !stale_id(nodes, now, e.0)
}

fn strings_equal(a: &String, b: &String) -> (r: bool)
    ensures
        r == (a@ == b@),
{
    *a == *b
}

fn knows_node(nodes: &Vec<RegisteredNode>, id: &String) -> (r: bool)
    ensures
        r == knows(nodes_view(nodes@), id@),
{
    let ghost ns = nodes_view(nodes@);
    let mut i: usize = 0;
    while i < nodes.len()
        invariant
            ns == nodes_view(nodes@),
            i <= nodes@.len(),
            forall|k: int| 0 <= k < i ==> (#[trigger] ns[k]).node_id != id@,
        decreases nodes@.len() - i,
    {
        assert(ns[i as int] == node_view(nodes@[i as int]));
        if strings_equal(&nodes[i].node_id, id) {
            return true;
        }
        i = i + 1;
    }
    false
}

fn stale_at(last: Option<u64>, now: u64) -> (r: bool)
    ensures
        r == is_stale(last, now),
{
    match last {
        None => false,
        Some(t) => now > t && now - t > 20000,
    }
}

fn is_stale_id(nodes: &Vec<RegisteredNode>, now: u64, id: &String) -> (r: bool)
    ensures
        r == stale_id(nodes_view(nodes@), now, id@),
{
    let ghost ns = nodes_view(nodes@);
    let mut i: usize = 0;
    while i < nodes.len()
        invariant
            ns == nodes_view(nodes@),
            i <= nodes@.len(),
            forall|k: int| 0 <= k < i ==> !((#[trigger] ns[k]).node_id == id@ && is_stale(ns[k].last_heartbeat_ms, now)),
        decreases nodes@.len() - i,
    {
        assert(ns[i as int] == node_view(nodes@[i as int]));
        if strings_equal(&nodes[i].node_id, id) && stale_at(nodes[i].last_heartbeat_ms, now) {
            return true;
        }
        i = i + 1;
    }
    false
}

fn touch(nodes: &mut Vec<RegisteredNode>, id: &String, now: u64)
    ensures
        nodes_view(final(nodes)@) == touched(nodes_view(old(nodes)@), id@, now),
{
    let ghost ns = nodes_view(nodes@);
    let mut i: usize = 0;
    while i < nodes.len()
        invariant
            ns == nodes_view(old(nodes)@),
            nodes@.len() == ns.len(),
            i <= nodes@.len(),
            forall|k: int| 0 <= k < i ==> #[trigger] node_view(nodes@[k]) == touched(ns, id@, now)[k],
            forall|k: int| i <= k < nodes@.len() ==> #[trigger] node_view(nodes@[k]) == ns[k],
        decreases nodes@.len() - i,
    {
        let ghost before = nodes@[i as int];
        assert(node_view(before) == ns[i as int]);
        if strings_equal(&nodes[i].node_id, id) {
            let n = RegisteredNode {
                node_id: nodes[i].node_id.clone(),
                address: nodes[i].address.clone(),
                last_heartbeat_ms: Some(now),
            };
            nodes.set(i, n);
            assert(node_view(nodes@[i as int]) == NodeView { last_heartbeat_ms: Some(now), ..ns[i as int] });
        }
        assert(node_view(nodes@[i as int]) == touched(ns, id@, now)[i as int]);
        i = i + 1;
    }
    assert(nodes_view(nodes@) =~= touched(ns, id@, now));
}

/// Keyed entries with their keys and values seen through `vf`.
pub open spec fn pairs_view<V, W>(s: Seq<(String, V)>, vf: spec_fn(V) -> W) -> Seq<(Seq<char>, W)> {
    s.map_values(|e: (String, V)| (e.0@, vf(e.1)))
}

/// Drops every entry whose key is listed, keeping the others in order.
fn retain_unlisted_pairs<V, W>(v: &mut Vec<(String, V)>, drop: &Vec<String>, Ghost(vf): Ghost<spec_fn(V) -> W>)
    ensures
        pairs_view(final(v)@, vf) == pairs_view(old(v)@, vf).filter(
            unlisted(crate::endpoints::strings_view(drop@)),
        ),
{
    let ghost es = pairs_view(v@, vf);
    let ghost d = crate::endpoints::strings_view(drop@);
    let total = v.len();
    let mut rest: Vec<(String, V)> = Vec::new();
    core::mem::swap(&mut rest, v);
    let mut n: usize = 0;
    assert(es.take(0) =~= Seq::<(Seq<char>, W)>::empty());
    proof {
        reveal(Seq::filter);
    }
    assert(pairs_view(v@, vf) =~= es.take(0).filter(unlisted(d)));
    while rest.len() > 0
        invariant
            es == pairs_view(old(v)@, vf),
            d == crate::endpoints::strings_view(drop@),
            es.len() == total,
            n <= es.len(),
            pairs_view(rest@, vf) == es.skip(n as int),
            pairs_view(v@, vf) == es.take(n as int).filter(unlisted(d)),
        decreases rest@.len(),
    {
        let ghost rv = rest@;
        assert(pairs_view(rv, vf).len() == rv.len());
        assert(n < es.len());
        assert(es.skip(n as int)[0] == pairs_view(rv, vf)[0]);
        let e = rest.remove(0);
        let ghost ev = (e.0@, vf(e.1));
        assert(e == rv[0]);
        assert(es.skip(n as int)[0] == es[n as int]);
        assert(ev == es[n as int]);
        proof {
            let m = pairs_view(rest@, vf);
            let mv = pairs_view(rv, vf);
            assert forall|k: int| 0 <= k < m.len() implies #[trigger] m[k] == es.skip(n + 1)[k] by {
                assert(rest@[k] == rv[k + 1]);
                assert(mv[k + 1] == es.skip(n as int)[k + 1]);
            }
            assert(m =~= es.skip(n + 1));
        }
        let ghost before = v@;
        proof {
            assert(es.take(n + 1) =~= es.take(n as int).push(ev));
            es.take(n as int).lemma_filter_push(ev, unlisted(d));
        }
        if !listed(drop, &e.0) {
            v.push(e);
            proof {
                assert(pairs_view(v@, vf) =~= pairs_view(before, vf).push(ev));
            }
        }
        n = n + 1;
    }
    assert(es.take(n as int) =~= es);
}

/// Node records not listed in `drop`.
pub open spec fn unlisted_node(drop: Seq<Seq<char>>) -> spec_fn(NodeView) -> bool {
    |n: NodeView| !drop.contains(n.node_id)
}

fn retain_unlisted_nodes(v: &mut Vec<RegisteredNode>, drop: &Vec<String>)
    ensures
        nodes_view(final(v)@) == nodes_view(old(v)@).filter(unlisted_node(crate::endpoints::strings_view(drop@))),
{
    let ghost es = nodes_view(v@);
    let ghost d = crate::endpoints::strings_view(drop@);
    let total = v.len();
    let mut rest: Vec<RegisteredNode> = Vec::new();
    core::mem::swap(&mut rest, v);
    let mut n: usize = 0;
    assert(es.take(0) =~= Seq::<NodeView>::empty());
    proof {
        reveal(Seq::filter);
    }
    assert(nodes_view(v@) =~= es.take(0).filter(unlisted_node(d)));
    while rest.len() > 0
        invariant
            es == nodes_view(old(v)@),
            d == crate::endpoints::strings_view(drop@),
            es.len() == total,
            n <= es.len(),
            nodes_view(rest@) == es.skip(n as int),
            nodes_view(v@) == es.take(n as int).filter(unlisted_node(d)),
        decreases rest@.len(),
    {
        let ghost rv = rest@;
        assert(nodes_view(rv).len() == rv.len());
        assert(n < es.len());
        assert(es.skip(n as int)[0] == nodes_view(rv)[0]);
        let e = rest.remove(0);
        let ghost ev = node_view(e);
        assert(e == rv[0]);
        assert(es.skip(n as int)[0] == es[n as int]);
        assert(ev == es[n as int]);
        proof {
            let m = nodes_view(rest@);
            let mv = nodes_view(rv);
            assert forall|k: int| 0 <= k < m.len() implies #[trigger] m[k] == es.skip(n + 1)[k] by {
                assert(rest@[k] == rv[k + 1]);
                assert(mv[k + 1] == es.skip(n as int)[k + 1]);
            }
            assert(m =~= es.skip(n + 1));
        }
        let ghost before = v@;
        proof {
            assert(es.take(n + 1) =~= es.take(n as int).push(ev));
            es.take(n as int).lemma_filter_push(ev, unlisted_node(d));
        }
        if !listed(drop, &e.node_id) {
            v.push(e);
            proof {
                assert(nodes_view(v@) =~= nodes_view(before).push(ev));
            }
        }
        n = n + 1;
    }
    assert(es.take(n as int) =~= es);
}

/// The ids of the records that are stale at `now`.
fn stale_ids(nodes: &Vec<RegisteredNode>, now: u64) -> (out: Vec<String>)
    ensures
        forall|id: Seq<char>| #[trigger] crate::endpoints::strings_view(out@).contains(id) <==> stale_id(
            nodes_view(nodes@),
            now,
            id,
        ),
{
    let ghost ns = nodes_view(nodes@);
    let mut out: Vec<String> = Vec::new();
    let mut i: usize = 0;
    while i < nodes.len()
        invariant
            ns == nodes_view(nodes@),
            i <= nodes@.len(),
            forall|id: Seq<char>| #[trigger] crate::endpoints::strings_view(out@).contains(id) <==> stale_id(
                ns.take(i as int),
                now,
                id,
            ),
        decreases nodes@.len() - i,
    {
        assert(ns[i as int] == node_view(nodes@[i as int]));
        let ghost before = crate::endpoints::strings_view(out@);
        let st = stale_at(nodes[i].last_heartbeat_ms, now);
        if st {
            out.push(nodes[i].node_id.clone());
        }
        proof {
            let t = ns.take(i + 1);
            assert forall|id: Seq<char>| #[trigger] crate::endpoints::strings_view(out@).contains(id) <==> stale_id(
                t,
                now,
                id,
            ) by {
                let o = crate::endpoints::strings_view(out@);
                if st {
                    assert(o =~= before.push(ns[i as int].node_id));
                } else {
                    assert(o =~= before);
                }
                if stale_id(t, now, id) {
                    let k = choose|k: int| 0 <= k < t.len() && (#[trigger] t[k]).node_id == id && is_stale(
                        t[k].last_heartbeat_ms,
                        now,
                    );
                    if k < i {
                        assert(ns.take(i as int)[k] == t[k]);
                        assert(stale_id(ns.take(i as int), now, id));
                        assert(before.contains(id));
                        let w = choose|w: int| 0 <= w < before.len() && before[w] == id;
                        assert(o[w] == id);
                    } else {
                        assert(o[o.len() - 1] == id);
                    }
                }
                if o.contains(id) {
                    let w = choose|w: int| 0 <= w < o.len() && o[w] == id;
                    if w < before.len() {
                        assert(before[w] == id);
                        assert(before.contains(id));
                        let k = choose|k: int| 0 <= k < i && (#[trigger] ns.take(i as int)[k]).node_id == id && is_stale(
                            ns.take(i as int)[k].last_heartbeat_ms,
                            now,
                        );
                        assert(t[k] == ns.take(i as int)[k]);
                    } else {
                        assert(t[i as int] == ns[i as int]);
                    }
                }
            }
        }
        i = i + 1;
    }
    assert(ns.take(i as int) =~= ns);
    out
}

/// Filters with predicates that agree everywhere agree.
proof fn lemma_filter_ext<A>(s: Seq<A>, p: spec_fn(A) -> bool, q: spec_fn(A) -> bool)
    requires
        forall|a: A| #[trigger] p(a) == q(a),
    ensures
        s.filter(p) == s.filter(q),
    decreases s.len(),
{
    if s.len() > 0 {
        let d = s.drop_last();
        lemma_filter_ext(d, p, q);
        d.lemma_filter_push(s.last(), p);
        d.lemma_filter_push(s.last(), q);
        assert(s =~= d.push(s.last()));
    } else {
        reveal(Seq::filter);
    }
}

/// Why the orchestrator refuses a heartbeat.
#[derive(Clone, Copy, Debug, PartialEq, Eq, Structural)]
pub enum HeartbeatRefusal {
    /// The orchestrator does not know the worker; it must join again.
    NotRegistered,
    /// An activation result is malformed.
    InvalidResult,
    /// An activation result differs from the one already acknowledged.
    ConflictingResult,
    /// An activation result arrived while nothing is queued for the worker.
    NoPendingCommand,
    /// An activation result names no queued activation command.
    UnmatchedResult,
}

/// The length of a text in UTF-8 bytes.
pub open spec fn utf8_len(s: Seq<char>) -> nat {
    vstd::utf8::encode_utf8(s).len()
}

pub open spec fn is_hex_byte(b: u8) -> bool {
    (48 <= b && b <= 57) || (65 <= b && b <= 70) || (97 <= b && b <= 102)
}

/// A required text field: not blank and at most 256 bytes.
pub open spec fn text_field_ok(s: Seq<char>) -> bool {
    crate::scan::trim(s).len() > 0 && utf8_len(s) <= 256
}

/// The longest error text a result may carry, in bytes.
pub open spec fn max_result_error_bytes() -> nat {
    2048
}

/// A well-formed activation result: it answers an activation command, names
/// its network, request and manifest, carries a brain identity and a
/// 64-digit hexadecimal manifest digest, keeps its texts within bounds, and
/// carries an error exactly when it was not accepted.
pub open spec fn result_valid(r: ResultView) -> bool {
    &&& r.command_type == CommandType::ActivateStableWorker
    &&& text_field_ok(r.network_id)
    &&& text_field_ok(r.request_id)
    &&& text_field_ok(r.manifest_digest)
    &&& utf8_len(r.placement_idempotency_key) <= 256
    &&& r.brain_id != 0
    &&& utf8_len(r.manifest_digest) == 64
    &&& forall|i: int| 0 <= i < utf8_len(r.manifest_digest) ==> is_hex_byte(
        #[trigger] vstd::utf8::encode_utf8(r.manifest_digest)[i],
    )
    &&& utf8_len(r.error) <= max_result_error_bytes()
    &&& (r.accepted ==> r.error.len() == 0)
    &&& (!r.accepted ==> crate::scan::trim(r.error).len() > 0)
}

fn is_blank(s: &String) -> (r: bool)
    ensures
        r == (crate::scan::trim(s@).len() == 0),
{
    let v = crate::scan::chars_of(s.as_str());
    let n = v.len();
    let (a, b) = crate::scan::trim_bounds(&v, 0, n);
    assert(v@.subrange(0, n as int) =~= s@);
    a == b
}

fn text_ok(s: &String) -> (r: bool)
    ensures
        r == text_field_ok(s@),
{
    !is_blank(s) && s.as_str().as_bytes().len() <= 256
}

fn all_hex(b: &[u8]) -> (r: bool)
    ensures
        r == forall|i: int| 0 <= i < b@.len() ==> is_hex_byte(#[trigger] b@[i]),
{
    let mut i: usize = 0;
    while i < b.len()
        invariant
            i <= b@.len(),
            forall|k: int| 0 <= k < i ==> is_hex_byte(#[trigger] b@[k]),
        decreases b@.len() - i,
    {
        let x = b[i];
        if !((48 <= x && x <= 57) || (65 <= x && x <= 70) || (97 <= x && x <= 102)) {
            assert(!is_hex_byte(b@[i as int]));
            return false;
        }
        i = i + 1;
    }
    true
}

/// Checks that an activation result is well formed before it is consumed.
pub fn validate_command_result(result: &ActivationResult) -> (r: Result<(), HeartbeatRefusal>)
    ensures
        r is Ok <==> result_valid(result_view(*result)),
        r is Err ==> r == Err::<(), HeartbeatRefusal>(HeartbeatRefusal::InvalidResult),
{
    let ok = result.command_type == CommandType::ActivateStableWorker && text_ok(&result.network_id)
        && text_ok(&result.request_id) && text_ok(&result.manifest_digest)
        && result.placement_idempotency_key.as_str().as_bytes().len() <= 256 && result.brain_id != 0
        && result.manifest_digest.as_str().as_bytes().len() == 64 && all_hex(result.manifest_digest.as_str().as_bytes())
        && result.error.as_str().as_bytes().len() <= 2048 && (!result.accepted || result.error.as_str().is_empty()) && (
    result.accepted || !is_blank(&result.error));
    if ok {
        Ok(())
    } else {
        Err(HeartbeatRefusal::InvalidResult)
    }
}

/// The most acknowledged activation results kept.
pub open spec fn max_kept_results() -> nat {
    64
}

/// A result acknowledges the activation with this identity.
pub open spec fn identity_matches(a: IdentityView, r: ResultView) -> bool {
    a.network_id == r.network_id && a.request_id == r.request_id && a.manifest_digest == r.manifest_digest
        && a.placement_idempotency_key == r.placement_idempotency_key
}

/// The first queued activation command that `r` acknowledges.
pub open spec fn first_match(q: Seq<QueuedView>, r: ResultView) -> Option<int>
    decreases q.len(),
{
    if q.len() == 0 {
        None
    } else {
        match first_match(q.drop_last(), r) {
            Some(i) => Some(i),
            None => if q.last().activation matches Some(a) && identity_matches(a, r) {
                Some(q.len() - 1)
            } else {
                None
            },
        }
    }
}

/// The first acknowledged result of worker `node` for request `req`.
pub open spec fn stored_index(st: Seq<(Seq<char>, ResultView)>, node: Seq<char>, req: Seq<char>) -> Option<int>
    decreases st.len(),
{
    if st.len() == 0 {
        None
    } else {
        match stored_index(st.drop_last(), node, req) {
            Some(i) => Some(i),
            None => if st.last().0 == node && st.last().1.request_id == req {
                Some(st.len() - 1)
            } else {
                None
            },
        }
    }
}

/// Acknowledged results are ordered by worker, then by request.
pub open spec fn result_key_lt(a: (Seq<char>, ResultView), b: (Seq<char>, ResultView)) -> bool {
    str_lt(a.0, b.0) || (a.0 == b.0 && str_lt(a.1.request_id, b.1.request_id))
}

/// The first entry with the smallest key.
pub open spec fn min_key_index(st: Seq<(Seq<char>, ResultView)>) -> int
    decreases st.len(),
{
    if st.len() <= 1 {
        0
    } else {
        let m = min_key_index(st.drop_last());
        if result_key_lt(st.last(), st[m]) {
            st.len() - 1
        } else {
            m
        }
    }
}

/// The store with room for one more result: at the bound, the entry with the
/// smallest key leaves.
pub open spec fn with_room(st: Seq<(Seq<char>, ResultView)>) -> Seq<(Seq<char>, ResultView)> {
    if st.len() >= max_kept_results() {
        st.remove(min_key_index(st))
    } else {
        st
    }
}

/// Handling one activation result of worker `node`: a repeat of an
/// acknowledged result is ignored and a different one refused; otherwise it
/// must acknowledge a queued activation command, which leaves the queue, and
/// the result is kept.
pub open spec fn consume_one(
    node: Seq<char>,
    q: Option<Seq<QueuedView>>,
    st: Seq<(Seq<char>, ResultView)>,
    r: ResultView,
) -> Result<(Option<Seq<QueuedView>>, Seq<(Seq<char>, ResultView)>), HeartbeatRefusal> {
    if !result_valid(r) {
        Err(HeartbeatRefusal::InvalidResult)
    } else {
        match stored_index(st, node, r.request_id) {
        Some(i) => if st[i].1 != r {
            Err(HeartbeatRefusal::ConflictingResult)
        } else {
            Ok((q, st))
        },
        None => match q {
            None => Err(HeartbeatRefusal::NoPendingCommand),
            Some(queue) => match first_match(queue, r) {
                None => Err(HeartbeatRefusal::UnmatchedResult),
                Some(i) => Ok((Some(queue.remove(i)), with_room(st).push((node, r)))),
            },
        },
        }
    }
}

/// Handling the results of a heartbeat in order; the first refusal stops.
pub open spec fn consume_all(
    node: Seq<char>,
    q: Option<Seq<QueuedView>>,
    st: Seq<(Seq<char>, ResultView)>,
    rs: Seq<ResultView>,
) -> Result<(Option<Seq<QueuedView>>, Seq<(Seq<char>, ResultView)>), HeartbeatRefusal>
    decreases rs.len(),
{
    if rs.len() == 0 {
        Ok((q, st))
    } else {
        match consume_all(node, q, st, rs.drop_last()) {
            Err(e) => Err(e),
            Ok((q1, st1)) => consume_one(node, q1, st1, rs.last()),
        }
    }
}

fn result_equal(a: &ActivationResult, b: &ActivationResult) -> (r: bool)
    ensures
        r == (result_view(*a) == result_view(*b)),
{
    a.command_type == b.command_type && a.network_id == b.network_id && a.request_id == b.request_id
        && a.manifest_digest == b.manifest_digest
        && a.placement_idempotency_key == b.placement_idempotency_key && a.brain_id == b.brain_id && a.accepted
        == b.accepted && a.error == b.error
}

fn clone_result(a: &ActivationResult) -> (r: ActivationResult)
    ensures
        result_view(r) == result_view(*a),
{
    ActivationResult {
        command_type: a.command_type,
        network_id: a.network_id.clone(),
        request_id: a.request_id.clone(),
        manifest_digest: a.manifest_digest.clone(),
        placement_idempotency_key: a.placement_idempotency_key.clone(),
        brain_id: a.brain_id,
        accepted: a.accepted,
        error: a.error.clone(),
    }
}

fn clone_queued(q: &QueuedCommand) -> (r: QueuedCommand)
    ensures
        queued_view(r) == queued_view(*q),
{
    QueuedCommand {
        command: q.command.clone_command(),
        activation: match &q.activation {
            None => None,
            Some(a) => Some(
                ActivationIdentity {
                    network_id: a.network_id.clone(),
                    request_id: a.request_id.clone(),
                    manifest_digest: a.manifest_digest.clone(),
                    placement_idempotency_key: a.placement_idempotency_key.clone(),
                },
            ),
        },
    }
}

fn clone_queue(q: &Vec<QueuedCommand>) -> (r: Vec<QueuedCommand>)
    ensures
        queue_view(r@) == queue_view(q@),
{
    let mut r: Vec<QueuedCommand> = Vec::new();
    let mut i: usize = 0;
    while i < q.len()
        invariant
            i <= q@.len(),
            queue_view(r@) == queue_view(q@).take(i as int),
        decreases q@.len() - i,
    {
        let c = clone_queued(&q[i]);
        let ghost cv = queued_view(c);
        let ghost before = r@;
        r.push(c);
        assert(queue_view(r@) =~= queue_view(before).push(cv));
        assert(queue_view(q@).take(i + 1) =~= queue_view(q@).take(i as int).push(cv));
        i = i + 1;
    }
    assert(queue_view(q@).take(i as int) =~= queue_view(q@));
    r
}

fn find_match(q: &Vec<QueuedCommand>, r: &ActivationResult) -> (out: Option<usize>)
    ensures
        match out {
            Some(i) => first_match(queue_view(q@), result_view(*r)) == Some(i as int) && i < q@.len(),
            None => first_match(queue_view(q@), result_view(*r)) is None,
        },
{
    let ghost qs = queue_view(q@);
    let mut i: usize = 0;
    assert(qs.take(0) =~= Seq::<QueuedView>::empty());
    while i < q.len()
        invariant
            qs == queue_view(q@),
            i <= q@.len(),
            first_match(qs.take(i as int), result_view(*r)) is None,
        decreases q@.len() - i,
    {
        assert(qs.take(i + 1).drop_last() =~= qs.take(i as int));
        assert(qs.take(i + 1).last() == queued_view(q@[i as int]));
        let hit = match &q[i].activation {
            None => false,
            Some(a) => a.network_id == r.network_id && a.request_id == r.request_id && a.manifest_digest
                == r.manifest_digest && a.placement_idempotency_key == r.placement_idempotency_key,
        };
        if hit {
            proof {
                lemma_first_match_prefix(qs, result_view(*r), i as int + 1);
            }
            return Some(i);
        }
        i = i + 1;
    }
    assert(qs.take(i as int) =~= qs);
    None
}

/// A match found in a prefix is the match of the whole queue.
proof fn lemma_first_match_prefix(q: Seq<QueuedView>, r: ResultView, k: int)
    requires
        0 <= k <= q.len(),
        first_match(q.take(k), r) is Some,
    ensures
        first_match(q, r) == first_match(q.take(k), r),
    decreases q.len() - k,
{
    if k < q.len() {
        assert(q.take(k + 1).drop_last() =~= q.take(k));
        lemma_first_match_prefix(q, r, k + 1);
    } else {
        assert(q.take(k) =~= q);
    }
}

/// A stored entry found in a prefix is the first of the whole store.
proof fn lemma_stored_prefix(st: Seq<(Seq<char>, ResultView)>, node: Seq<char>, req: Seq<char>, k: int)
    requires
        0 <= k <= st.len(),
        stored_index(st.take(k), node, req) is Some,
    ensures
        stored_index(st, node, req) == stored_index(st.take(k), node, req),
    decreases st.len() - k,
{
    if k < st.len() {
        assert(st.take(k + 1).drop_last() =~= st.take(k));
        lemma_stored_prefix(st, node, req, k + 1);
    } else {
        assert(st.take(k) =~= st);
    }
}

pub open spec fn store_view(st: Seq<(String, ActivationResult)>) -> Seq<(Seq<char>, ResultView)> {
    st.map_values(|p: (String, ActivationResult)| (p.0@, result_view(p.1)))
}

fn find_stored(st: &Vec<(String, ActivationResult)>, node: &String, req: &String) -> (out: Option<usize>)
    ensures
        match out {
            Some(i) => stored_index(store_view(st@), node@, req@) == Some(i as int) && i < st@.len(),
            None => stored_index(store_view(st@), node@, req@) is None,
        },
{
    let ghost ss = store_view(st@);
    let mut i: usize = 0;
    assert(ss.take(0) =~= Seq::<(Seq<char>, ResultView)>::empty());
    while i < st.len()
        invariant
            ss == store_view(st@),
            i <= st@.len(),
            stored_index(ss.take(i as int), node@, req@) is None,
        decreases st@.len() - i,
    {
        assert(ss.take(i + 1).drop_last() =~= ss.take(i as int));
        assert(ss.take(i + 1).last() == ss[i as int]);
        if st[i].0 == *node && st[i].1.request_id == *req {
            proof {
                lemma_stored_prefix(ss, node@, req@, i as int + 1);
            }
            return Some(i);
        }
        i = i + 1;
    }
    assert(ss.take(i as int) =~= ss);
    None
}

fn key_less(a: &(String, ActivationResult), b: &(String, ActivationResult)) -> (r: bool)
    ensures
        r == result_key_lt((a.0@, result_view(a.1)), (b.0@, result_view(b.1))),
{
    str_less(a.0.as_str(), b.0.as_str()) || (a.0 == b.0 && str_less(a.1.request_id.as_str(), b.1.request_id.as_str()))
}

fn min_key_position(st: &Vec<(String, ActivationResult)>) -> (m: usize)
    requires
        st@.len() >= 1,
    ensures
        m as int == min_key_index(store_view(st@)),
        m < st@.len(),
{
    let ghost ss = store_view(st@);
    let mut m: usize = 0;
    let mut i: usize = 1;
    assert(ss.take(1).len() == 1);
    while i < st.len()
        invariant
            ss == store_view(st@),
            1 <= i <= st@.len(),
            m < i,
            m as int == min_key_index(ss.take(i as int)),
        decreases st@.len() - i,
    {
        let ghost t = ss.take(i + 1);
        assert(t.drop_last() =~= ss.take(i as int));
        assert(t.last() == ss[i as int]);
        assert(t[m as int] == ss[m as int]);
        if key_less(&st[i], &st[m]) {
            m = i;
        }
        i = i + 1;
    }
    assert(ss.take(i as int) =~= ss);
    m
}

pub open spec fn results_view(rs: Seq<ActivationResult>) -> Seq<ResultView> {
    rs.map_values(|r: ActivationResult| result_view(r))
}

pub open spec fn opt_queue_view(q: Option<Vec<QueuedCommand>>) -> Option<Seq<QueuedView>> {
    match q {
        Some(v) => Some(queue_view(v@)),
        None => None,
    }
}

/// The queue and results reached by handling results in order up to the
/// first refusal (or to the end): what a refused heartbeat leaves behind.
pub open spec fn consume_progress(
    node: Seq<char>,
    q: Option<Seq<QueuedView>>,
    st: Seq<(Seq<char>, ResultView)>,
    rs: Seq<ResultView>,
) -> (Option<Seq<QueuedView>>, Seq<(Seq<char>, ResultView)>)
    decreases rs.len(),
{
    if rs.len() == 0 {
        (q, st)
    } else {
        let before = consume_progress(node, q, st, rs.drop_last());
        match consume_all(node, q, st, rs.drop_last()) {
            Err(_) => before,
            Ok(_) => match consume_one(node, before.0, before.1, rs.last()) {
                Ok(after) => after,
                Err(_) => before,
            },
        }
    }
}

/// Without a refusal, the progress is the whole outcome.
proof fn lemma_progress_ok(
    node: Seq<char>,
    q: Option<Seq<QueuedView>>,
    st: Seq<(Seq<char>, ResultView)>,
    rs: Seq<ResultView>,
)
    ensures
        consume_all(node, q, st, rs) matches Ok(x) ==> consume_progress(node, q, st, rs) == x,
    decreases rs.len(),
{
    if rs.len() > 0 {
        lemma_progress_ok(node, q, st, rs.drop_last());
    }
}

/// After the first refusal, later results change nothing.
proof fn lemma_progress_stops(
    node: Seq<char>,
    q: Option<Seq<QueuedView>>,
    st: Seq<(Seq<char>, ResultView)>,
    rs: Seq<ResultView>,
    k: int,
)
    requires
        0 <= k <= rs.len(),
        consume_all(node, q, st, rs.take(k)) is Err,
    ensures
        consume_progress(node, q, st, rs) == consume_progress(node, q, st, rs.take(k)),
    decreases rs.len() - k,
{
    if k < rs.len() {
        assert(rs.take(k + 1).drop_last() =~= rs.take(k));
        lemma_progress_stops(node, q, st, rs, k + 1);
    } else {
        assert(rs.take(k) =~= rs);
    }
}

/// A refusal on the first results is the refusal of the whole heartbeat.
proof fn lemma_consume_err_extends(
    node: Seq<char>,
    q: Option<Seq<QueuedView>>,
    st: Seq<(Seq<char>, ResultView)>,
    rs: Seq<ResultView>,
    k: int,
)
    requires
        0 <= k <= rs.len(),
        consume_all(node, q, st, rs.take(k)) is Err,
    ensures
        consume_all(node, q, st, rs) == consume_all(node, q, st, rs.take(k)),
    decreases rs.len() - k,
{
    if k < rs.len() {
        assert(rs.take(k + 1).drop_last() =~= rs.take(k));
        lemma_consume_err_extends(node, q, st, rs, k + 1);
    } else {
        assert(rs.take(k) =~= rs);
    }
}

fn consume_results(
    node: &String,
    queue: &mut Option<Vec<QueuedCommand>>,
    store: &mut Vec<(String, ActivationResult)>,
    results: &Vec<ActivationResult>,
) -> (r: Result<(), HeartbeatRefusal>)
    ensures
        ({
            let spec_r = consume_all(node@, opt_queue_view(*old(queue)), store_view(old(store)@), results_view(results@));
            &&& r is Ok <==> spec_r is Ok
            &&& r matches Err(e) ==> spec_r == Err::<(Option<Seq<QueuedView>>, Seq<(Seq<char>, ResultView)>), _>(e)
            &&& (opt_queue_view(*final(queue)), store_view(final(store)@)) == consume_progress(
                node@,
                opt_queue_view(*old(queue)),
                store_view(old(store)@),
                results_view(results@),
            )
        }),
{
    let ghost rs = results_view(results@);
    let ghost q0 = opt_queue_view(*queue);
    let ghost s0 = store_view(store@);
    let mut i: usize = 0;
    assert(rs.take(0) =~= Seq::<ResultView>::empty());
    while i < results.len()
        invariant
            rs == results_view(results@),
            q0 == opt_queue_view(*old(queue)),
            s0 == store_view(old(store)@),
            i <= results@.len(),
            consume_all(node@, q0, s0, rs.take(i as int)) == Ok::<_, HeartbeatRefusal>((opt_queue_view(*queue), store_view(store@))),
            consume_progress(node@, q0, s0, rs.take(i as int)) == (opt_queue_view(*queue), store_view(store@)),
        decreases results@.len() - i,
    {
        let r = &results[i];
        let ghost t = rs.take(i + 1);
        assert(t.drop_last() =~= rs.take(i as int));
        assert(t.last() == result_view(*r));
        let ghost qv = opt_queue_view(*queue);
        let ghost sv = store_view(store@);
        match validate_command_result(r) {
            Ok(()) => {},
            Err(e) => {
                proof {
                    lemma_consume_err_extends(node@, q0, s0, rs, i + 1);
                    lemma_progress_stops(node@, q0, s0, rs, i + 1);
                }
                return Err(e);
            },
        }
        match find_stored(store, node, &r.request_id) {
            Some(k) => {
                assert(sv[k as int] == (store@[k as int].0@, result_view(store@[k as int].1)));
                if !result_equal(&store[k].1, r) {
                    proof {
                        lemma_consume_err_extends(node@, q0, s0, rs, i + 1);
                        lemma_progress_stops(node@, q0, s0, rs, i + 1);
                    }
                    return Err(HeartbeatRefusal::ConflictingResult);
                }
            },
            None => {
                match queue {
                    None => {
                        proof {
                            lemma_consume_err_extends(node@, q0, s0, rs, i + 1);
                            lemma_progress_stops(node@, q0, s0, rs, i + 1);
                        }
                        return Err(HeartbeatRefusal::NoPendingCommand);
                    },
                    Some(qvec) => {
                        match find_match(qvec, r) {
                            None => {
                                proof {
                                    lemma_consume_err_extends(node@, q0, s0, rs, i + 1);
                                    lemma_progress_stops(node@, q0, s0, rs, i + 1);
                                }
                                return Err(HeartbeatRefusal::UnmatchedResult);
                            },
                            Some(k) => {
                                let ghost qbefore = qvec@;
                                qvec.remove(k);
                                assert(queue_view(qvec@) =~= queue_view(qbefore).remove(k as int));
                                if store.len() >= 64 {
                                    let m = min_key_position(store);
                                    let ghost sbefore = store@;
                                    store.remove(m);
                                    assert(store_view(store@) =~= store_view(sbefore).remove(m as int));
                                }
                                let ghost sb = store@;
                                let entry = (node.clone(), clone_result(r));
                                store.push(entry);
                                assert(store_view(store@) =~= store_view(sb).push((node@, result_view(*r))));
                            },
                        }
                    },
                }
            },
        }
        i = i + 1;
    }
    assert(rs.take(i as int) =~= rs);
    Ok(())
}

/// Where the queue of worker `node` is kept, if it has one.
pub open spec fn queue_index(pc: Seq<(Seq<char>, Seq<QueuedView>)>, node: Seq<char>) -> Option<int>
    decreases pc.len(),
{
    if pc.len() == 0 {
        None
    } else {
        match queue_index(pc.drop_last(), node) {
            Some(i) => Some(i),
            None => if pc.last().0 == node {
                Some(pc.len() - 1)
            } else {
                None
            },
        }
    }
}

pub open spec fn queue_of(pc: Seq<(Seq<char>, Seq<QueuedView>)>, node: Seq<char>) -> Option<Seq<QueuedView>> {
    match queue_index(pc, node) {
        Some(i) => Some(pc[i].1),
        None => None,
    }
}

/// The queues with worker `node`'s queue replaced by `q`.
pub open spec fn with_queue(
    pc: Seq<(Seq<char>, Seq<QueuedView>)>,
    node: Seq<char>,
    q: Option<Seq<QueuedView>>,
) -> Seq<(Seq<char>, Seq<QueuedView>)> {
    match (queue_index(pc, node), q) {
        (Some(i), Some(queue)) => pc.update(i, (node, queue)),
        _ => pc,
    }
}

pub open spec fn is_activation() -> spec_fn(QueuedView) -> bool {
    |c: QueuedView| c.activation is Some
}

/// Where the record of `id` is, if it has one.
pub open spec fn node_index(nodes: Seq<NodeView>, id: Seq<char>) -> Option<int>
    decreases nodes.len(),
{
    if nodes.len() == 0 {
        None
    } else {
        match node_index(nodes.drop_last(), id) {
            Some(i) => Some(i),
            None => if nodes.last().node_id == id {
                Some(nodes.len() - 1)
            } else {
                None
            },
        }
    }
}

/// Where the peer address of `id` is, if it has one.
pub open spec fn peer_index(peers: Seq<(Seq<char>, Seq<char>)>, id: Seq<char>) -> Option<int>
    decreases peers.len(),
{
    if peers.len() == 0 {
        None
    } else {
        match peer_index(peers.drop_last(), id) {
            Some(i) => Some(i),
            None => if peers.last().0 == id {
                Some(peers.len() - 1)
            } else {
                None
            },
        }
    }
}

/// The peers with `id` connected at `addr`.
pub open spec fn upsert_peer(peers: Seq<(Seq<char>, Seq<char>)>, id: Seq<char>, addr: Seq<char>) -> Seq<
    (Seq<char>, Seq<char>),
> {
    match peer_index(peers, id) {
        Some(i) => peers.update(i, (id, addr)),
        None => peers.push((id, addr)),
    }
}

/// Worker `id` has a heartbeat that is not stale at `now`.
pub open spec fn fresh(nodes: Seq<NodeView>, now: u64, id: Seq<char>) -> bool {
    exists|i: int|
        0 <= i < nodes.len() && (#[trigger] nodes[i]).node_id == id && nodes[i].last_heartbeat_ms is Some
            && !is_stale(nodes[i].last_heartbeat_ms, now)
}

pub open spec fn fresh_peer(nodes: Seq<NodeView>, now: u64) -> spec_fn((Seq<char>, Seq<char>)) -> bool {
    |p: (Seq<char>, Seq<char>)| fresh(nodes, now, p.0)
}

pub open spec fn has_peer(peers: Seq<(Seq<char>, Seq<char>)>) -> spec_fn(Seq<char>) -> bool {
    |id: Seq<char>| exists|i: int| 0 <= i < peers.len() && (#[trigger] peers[i]).0 == id
}

pub open spec fn pending_view(pc: Seq<(String, Vec<QueuedCommand>)>) -> Seq<(Seq<char>, Seq<QueuedView>)> {
    pc.map_values(|p: (String, Vec<QueuedCommand>)| (p.0@, queue_view(p.1@)))
}

pub open spec fn peers_view(ps: Seq<(String, String)>) -> Seq<(Seq<char>, Seq<char>)> {
    ps.map_values(|p: (String, String)| (p.0@, p.1@))
}

pub open spec fn dists_view(ds: Seq<(String, LayerDistribution)>) -> Seq<(Seq<char>, Seq<(Seq<char>, LayerRangeView)>)> {
    ds.map_values(|p: (String, LayerDistribution)| (p.0@, p.1@))
}

fn queue_position(pc: &Vec<(String, Vec<QueuedCommand>)>, node: &String) -> (out: Option<usize>)
    ensures
        match out {
            Some(i) => queue_index(pending_view(pc@), node@) == Some(i as int) && i < pc@.len(),
            None => queue_index(pending_view(pc@), node@) is None,
        },
{
    let ghost ps = pending_view(pc@);
    let mut i: usize = 0;
    assert(ps.take(0) =~= Seq::<(Seq<char>, Seq<QueuedView>)>::empty());
    while i < pc.len()
        invariant
            ps == pending_view(pc@),
            i <= pc@.len(),
            queue_index(ps.take(i as int), node@) is None,
        decreases pc@.len() - i,
    {
        assert(ps.take(i + 1).drop_last() =~= ps.take(i as int));
        assert(ps.take(i + 1).last() == ps[i as int]);
        if pc[i].0 == *node {
            proof {
                lemma_index_prefix_pending(ps, node@, i as int + 1);
            }
            return Some(i);
        }
        i = i + 1;
    }
    assert(ps.take(i as int) =~= ps);
    None
}

proof fn lemma_index_prefix_pending(pc: Seq<(Seq<char>, Seq<QueuedView>)>, node: Seq<char>, k: int)
    requires
        0 <= k <= pc.len(),
        queue_index(pc.take(k), node) is Some,
    ensures
        queue_index(pc, node) == queue_index(pc.take(k), node),
    decreases pc.len() - k,
{
    if k < pc.len() {
        assert(pc.take(k + 1).drop_last() =~= pc.take(k));
        lemma_index_prefix_pending(pc, node, k + 1);
    } else {
        assert(pc.take(k) =~= pc);
    }
}

fn node_position(nodes: &Vec<RegisteredNode>, id: &String) -> (out: Option<usize>)
    ensures
        match out {
            Some(i) => node_index(nodes_view(nodes@), id@) == Some(i as int) && i < nodes@.len(),
            None => node_index(nodes_view(nodes@), id@) is None,
        },
{
    let ghost ns = nodes_view(nodes@);
    let mut i: usize = 0;
    assert(ns.take(0) =~= Seq::<NodeView>::empty());
    while i < nodes.len()
        invariant
            ns == nodes_view(nodes@),
            i <= nodes@.len(),
            node_index(ns.take(i as int), id@) is None,
        decreases nodes@.len() - i,
    {
        assert(ns.take(i + 1).drop_last() =~= ns.take(i as int));
        assert(ns.take(i + 1).last() == ns[i as int]);
        if nodes[i].node_id == *id {
            proof {
                lemma_index_prefix_nodes(ns, id@, i as int + 1);
            }
            return Some(i);
        }
        i = i + 1;
    }
    assert(ns.take(i as int) =~= ns);
    None
}

proof fn lemma_index_prefix_nodes(ns: Seq<NodeView>, id: Seq<char>, k: int)
    requires
        0 <= k <= ns.len(),
        node_index(ns.take(k), id) is Some,
    ensures
        node_index(ns, id) == node_index(ns.take(k), id),
    decreases ns.len() - k,
{
    if k < ns.len() {
        assert(ns.take(k + 1).drop_last() =~= ns.take(k));
        lemma_index_prefix_nodes(ns, id, k + 1);
    } else {
        assert(ns.take(k) =~= ns);
    }
}

fn peer_position(peers: &Vec<(String, String)>, id: &String) -> (out: Option<usize>)
    ensures
        match out {
            Some(i) => peer_index(peers_view(peers@), id@) == Some(i as int) && i < peers@.len(),
            None => peer_index(peers_view(peers@), id@) is None,
        },
{
    let ghost ps = peers_view(peers@);
    let mut i: usize = 0;
    assert(ps.take(0) =~= Seq::<(Seq<char>, Seq<char>)>::empty());
    while i < peers.len()
        invariant
            ps == peers_view(peers@),
            i <= peers@.len(),
            peer_index(ps.take(i as int), id@) is None,
        decreases peers@.len() - i,
    {
        assert(ps.take(i + 1).drop_last() =~= ps.take(i as int));
        assert(ps.take(i + 1).last() == ps[i as int]);
        if peers[i].0 == *id {
            proof {
                lemma_index_prefix_peers(ps, id@, i as int + 1);
            }
            return Some(i);
        }
        i = i + 1;
    }
    assert(ps.take(i as int) =~= ps);
    None
}

proof fn lemma_index_prefix_peers(ps: Seq<(Seq<char>, Seq<char>)>, id: Seq<char>, k: int)
    requires
        0 <= k <= ps.len(),
        peer_index(ps.take(k), id) is Some,
    ensures
        peer_index(ps, id) == peer_index(ps.take(k), id),
    decreases ps.len() - k,
{
    if k < ps.len() {
        assert(ps.take(k + 1).drop_last() =~= ps.take(k));
        lemma_index_prefix_peers(ps, id, k + 1);
    } else {
        assert(ps.take(k) =~= ps);
    }
}

fn is_fresh(nodes: &Vec<RegisteredNode>, now: u64, id: &String) -> (r: bool)
    ensures
        r == fresh(nodes_view(nodes@), now, id@),
{
    let ghost ns = nodes_view(nodes@);
    let mut i: usize = 0;
    while i < nodes.len()
        invariant
            ns == nodes_view(nodes@),
            i <= nodes@.len(),
            forall|k: int| 0 <= k < i ==> !((#[trigger] ns[k]).node_id == id@ && ns[k].last_heartbeat_ms is Some
                && !is_stale(ns[k].last_heartbeat_ms, now)),
        decreases nodes@.len() - i,
    {
        assert(ns[i as int] == node_view(nodes@[i as int]));
        if nodes[i].node_id == *id && nodes[i].last_heartbeat_ms.is_some() && !stale_at(nodes[i].last_heartbeat_ms, now) {
            return true;
        }
        i = i + 1;
    }
    false
}

/// One worker heartbeat, as the orchestrator receives it.
pub struct HeartbeatEvent {
    pub node_id: String,
    /// When it arrived, in milliseconds.
    pub now_ms: u64,
    /// Where the worker was seen, if known.
    pub remote: Option<RemotePeer>,
    /// The worker's activation results.
    pub results: Vec<ActivationResult>,
}

/// The orchestrator's answer to a heartbeat.
pub struct HeartbeatReply {
    /// The commands handed to the worker.
    pub commands: Vec<NetworkCommand>,
    /// Every worker with a fresh heartbeat and its connect address.
    pub peers: Vec<(String, String)>,
    /// For each network, the workers of its placement among those peers.
    pub network_peers: Vec<(String, Vec<String>)>,
    /// The worker's own connect address.
    pub connect_addr: String,
}

/// The queues after the worker's queue is handed out: only its activation
/// commands stay queued, until their results arrive.
pub open spec fn after_delivery(pc: Seq<(Seq<char>, Seq<QueuedView>)>, node: Seq<char>) -> Seq<
    (Seq<char>, Seq<QueuedView>),
> {
    match queue_of(pc, node) {
        Some(q) => with_queue(pc, node, Some(q.filter(is_activation()))),
        None => pc,
    }
}

/// The commands handed to the worker: its whole queue.
pub open spec fn delivered(pc: Seq<(Seq<char>, Seq<QueuedView>)>, node: Seq<char>) -> Seq<NetworkCommandView> {
    match queue_of(pc, node) {
        Some(q) => q.map_values(|c: QueuedView| c.command),
        None => Seq::empty(),
    }
}

/// A placement with the stale workers taken out.
pub open spec fn pruned_dists(
    ds: Seq<(Seq<char>, Seq<(Seq<char>, LayerRangeView)>)>,
    nodes: Seq<NodeView>,
    now: u64,
) -> Seq<(Seq<char>, Seq<(Seq<char>, LayerRangeView)>)> {
    ds.map_values(
        |d: (Seq<char>, Seq<(Seq<char>, LayerRangeView)>)| (d.0, d.1.filter(keep_keyed(nodes, now))),
    )
}

/// Each network with the workers of its placement that are peers.
pub open spec fn network_peer_lists(
    ds: Seq<(Seq<char>, Seq<(Seq<char>, LayerRangeView)>)>,
    peers: Seq<(Seq<char>, Seq<char>)>,
) -> Seq<(Seq<char>, Seq<Seq<char>>)> {
    ds.map_values(
        |d: (Seq<char>, Seq<(Seq<char>, LayerRangeView)>)| (
            d.0,
            d.1.map_values(|e: (Seq<char>, LayerRangeView)| e.0).filter(has_peer(peers)),
        ),
    )
}

fn clone_store(st: &Vec<(String, ActivationResult)>) -> (r: Vec<(String, ActivationResult)>)
    ensures
        store_view(r@) == store_view(st@),
{
    let mut r: Vec<(String, ActivationResult)> = Vec::new();
    let mut i: usize = 0;
    while i < st.len()
        invariant
            i <= st@.len(),
            store_view(r@) == store_view(st@).take(i as int),
        decreases st@.len() - i,
    {
        let e = (st[i].0.clone(), clone_result(&st[i].1));
        let ghost ev = (e.0@, result_view(e.1));
        let ghost before = r@;
        r.push(e);
        assert(store_view(r@) =~= store_view(before).push(ev));
        assert(store_view(st@).take(i + 1) =~= store_view(st@).take(i as int).push(ev));
        i = i + 1;
    }
    assert(store_view(st@).take(i as int) =~= store_view(st@));
    r
}

/// Takes the listed workers out of every placement.
fn prune_distributions(ds: &mut Vec<(String, LayerDistribution)>, drop: &Vec<String>)
    requires
        forall|i: int| 0 <= i < old(ds)@.len() ==> (#[trigger] old(ds)@[i]).1.wf(),
    ensures
        forall|i: int| 0 <= i < final(ds)@.len() ==> (#[trigger] final(ds)@[i]).1.wf(),
        dists_view(final(ds)@) == dists_view(old(ds)@).map_values(
            |d: (Seq<char>, Seq<(Seq<char>, LayerRangeView)>)| (d.0, d.1.filter(unlisted(strings_view(drop@)))),
        ),
{
    let ghost d0 = dists_view(ds@);
    let mut i: usize = 0;
    while i < ds.len()
        invariant
            d0 == dists_view(old(ds)@),
            ds@.len() == d0.len(),
            i <= ds@.len(),
            forall|k: int| 0 <= k < ds@.len() ==> (#[trigger] ds@[k]).1.wf(),
            forall|k: int| 0 <= k < i ==> #[trigger] dists_view(ds@)[k] == (d0[k].0, d0[k].1.filter(unlisted(strings_view(drop@)))),
            forall|k: int| i <= k < ds@.len() ==> #[trigger] dists_view(ds@)[k] == d0[k],
        decreases ds@.len() - i,
    {
        let ghost before = ds@;
        let ghost bv = dists_view(before);
        let (key, mut dist) = ds.remove(i);
        assert(key == before[i as int].0 && dist == before[i as int].1);
        dist.retain_unlisted(drop);
        let ghost entry = (key@, dist@);
        ds.insert(i, (key, dist));
        proof {
            assert(ds@ =~= before.update(i as int, ds@[i as int]));
            assert forall|k: int| 0 <= k < ds@.len() && k != i implies #[trigger] dists_view(ds@)[k] == bv[k] by {
                assert(ds@[k] == before[k]);
            }
            assert(dists_view(ds@)[i as int] == entry);
            assert(bv[i as int] == d0[i as int]);
        }
        i = i + 1;
    }
    assert(dists_view(ds@) =~= d0.map_values(
        |d: (Seq<char>, Seq<(Seq<char>, LayerRangeView)>)| (d.0, d.1.filter(unlisted(strings_view(drop@)))),
    ));
}

proof fn lemma_queue_index(pc: Seq<(Seq<char>, Seq<QueuedView>)>, node: Seq<char>)
    ensures
        queue_index(pc, node) matches Some(i) ==> 0 <= i < pc.len() && pc[i].0 == node,
    decreases pc.len(),
{
    if pc.len() > 0 {
        lemma_queue_index(pc.drop_last(), node);
    }
}

/// Hands out the worker's queue, keeping only its activation commands queued.
fn deliver(pending: &mut Vec<(String, Vec<QueuedCommand>)>, node: &String) -> (out: Vec<NetworkCommand>)
    ensures
        crate::cluster::commands_view(out@) == delivered(pending_view(old(pending)@), node@),
        pending_view(final(pending)@) == after_delivery(pending_view(old(pending)@), node@),
{
    let ghost p0 = pending_view(pending@);
    match queue_position(pending, node) {
        None => {
            let out: Vec<NetworkCommand> = Vec::new();
            assert(crate::cluster::commands_view(out@) =~= Seq::<NetworkCommandView>::empty());
            out
        },
        Some(i) => {
            let ghost before = pending@;
            let (key, queue) = pending.remove(i);
            assert(key == before[i as int].0 && queue == before[i as int].1);
            let ghost qv = queue_view(queue@);
            assert(qv == p0[i as int].1);
            let mut out: Vec<NetworkCommand> = Vec::new();
            let mut keep: Vec<QueuedCommand> = Vec::new();
            let mut j: usize = 0;
            assert(qv.take(0) =~= Seq::<QueuedView>::empty());
            proof {
                reveal(Seq::filter);
            }
            while j < queue.len()
                invariant
                    qv == queue_view(queue@),
                    j <= queue@.len(),
                    crate::cluster::commands_view(out@) == qv.take(j as int).map_values(|c: QueuedView| c.command),
                    queue_view(keep@) == qv.take(j as int).filter(is_activation()),
                decreases queue@.len() - j,
            {
                let ghost cv = queued_view(queue@[j as int]);
                assert(qv[j as int] == cv);
                assert(qv.take(j + 1) =~= qv.take(j as int).push(cv));
                proof {
                    qv.take(j as int).lemma_filter_push(cv, is_activation());
                }
                let ghost ob = out@;
                let c = queue[j].command.clone_command();
                out.push(c);
                assert(crate::cluster::commands_view(out@) =~= crate::cluster::commands_view(ob).push(cv.command));
                assert(qv.take(j + 1).map_values(|c: QueuedView| c.command) =~= qv.take(j as int).map_values(
                    |c: QueuedView| c.command,
                ).push(cv.command));
                if queue[j].activation.is_some() {
                    let ghost kb = keep@;
                    let k = clone_queued(&queue[j]);
                    keep.push(k);
                    assert(queue_view(keep@) =~= queue_view(kb).push(cv));
                }
                j = j + 1;
            }
            assert(qv.take(j as int) =~= qv);
            let ghost kv = queue_view(keep@);
            pending.insert(i, (key, keep));
            proof {
                lemma_queue_index(p0, node@);
                assert(p0[i as int].0 == node@);
                assert(key@ == node@);
                assert(pending@ =~= before.update(i as int, pending@[i as int]));
                assert(pending_view(pending@) =~= p0.update(i as int, (node@, kv)));
            }
            out
        },
    }
}

/// The peers whose worker has a fresh heartbeat.
fn fresh_peers(peers: &Vec<(String, String)>, nodes: &Vec<RegisteredNode>, now: u64) -> (out: Vec<(String, String)>)
    ensures
        peers_view(out@) == peers_view(peers@).filter(fresh_peer(nodes_view(nodes@), now)),
{
    let ghost ps = peers_view(peers@);
    let mut out: Vec<(String, String)> = Vec::new();
    let mut i: usize = 0;
    assert(ps.take(0) =~= Seq::<(Seq<char>, Seq<char>)>::empty());
    proof {
        reveal(Seq::filter);
    }
    while i < peers.len()
        invariant
            ps == peers_view(peers@),
            i <= peers@.len(),
            peers_view(out@) == ps.take(i as int).filter(fresh_peer(nodes_view(nodes@), now)),
        decreases peers@.len() - i,
    {
        let ghost pv = ps[i as int];
        assert(ps.take(i + 1) =~= ps.take(i as int).push(pv));
        proof {
            ps.take(i as int).lemma_filter_push(pv, fresh_peer(nodes_view(nodes@), now));
        }
        if is_fresh(nodes, now, &peers[i].0) {
            let ghost ob = out@;
            out.push((peers[i].0.clone(), peers[i].1.clone()));
            assert(peers_view(out@) =~= peers_view(ob).push(pv));
        }
        i = i + 1;
    }
    assert(ps.take(i as int) =~= ps);
    out
}

fn is_peer(peers: &Vec<(String, String)>, id: &String) -> (r: bool)
    ensures
        r == has_peer(peers_view(peers@))(id@),
{
    let ghost ps = peers_view(peers@);
    let mut i: usize = 0;
    while i < peers.len()
        invariant
            ps == peers_view(peers@),
            i <= peers@.len(),
            forall|k: int| 0 <= k < i ==> (#[trigger] ps[k]).0 != id@,
        decreases peers@.len() - i,
    {
        if peers[i].0 == *id {
            assert(ps[i as int].0 == id@);
            return true;
        }
        i = i + 1;
    }
    false
}

fn placement_peers(d: &LayerDistribution, peers: &Vec<(String, String)>) -> (out: Vec<String>)
    ensures
        strings_view(out@) == d@.map_values(|e: (Seq<char>, LayerRangeView)| e.0).filter(has_peer(peers_view(peers@))),
{
    let entries = d.entries();
    let ghost ids = d@.map_values(|e: (Seq<char>, LayerRangeView)| e.0);
    let mut out: Vec<String> = Vec::new();
    let mut i: usize = 0;
    assert(ids.take(0) =~= Seq::<Seq<char>>::empty());
    proof {
        reveal(Seq::filter);
    }
    while i < entries.len()
        invariant
            ids == d@.map_values(|e: (Seq<char>, LayerRangeView)| e.0),
            entries@.map_values(|e: (String, crate::placement::LayerRange)| crate::placement::entry_view(e)) == d@,
            i <= entries@.len(),
            strings_view(out@) == ids.take(i as int).filter(has_peer(peers_view(peers@))),
        decreases entries@.len() - i,
    {
        let ghost x = ids[i as int];
        assert(x == entries@[i as int].0@);
        assert(ids.take(i + 1) =~= ids.take(i as int).push(x));
        proof {
            ids.take(i as int).lemma_filter_push(x, has_peer(peers_view(peers@)));
        }
        if is_peer(peers, &entries[i].0) {
            let ghost ob = out@;
            out.push(entries[i].0.clone());
            assert(strings_view(out@) =~= strings_view(ob).push(x));
        }
        i = i + 1;
    }
    assert(ids.take(i as int) =~= ids);
    out
}

pub open spec fn lists_view(v: Seq<(String, Vec<String>)>) -> Seq<(Seq<char>, Seq<Seq<char>>)> {
    v.map_values(|p: (String, Vec<String>)| (p.0@, strings_view(p.1@)))
}

fn network_peers(ds: &Vec<(String, LayerDistribution)>, peers: &Vec<(String, String)>) -> (out: Vec<(String, Vec<String>)>)
    ensures
        lists_view(out@) == network_peer_lists(dists_view(ds@), peers_view(peers@)),
{
    let ghost target = network_peer_lists(dists_view(ds@), peers_view(peers@));
    let mut out: Vec<(String, Vec<String>)> = Vec::new();
    let mut i: usize = 0;
    while i < ds.len()
        invariant
            target == network_peer_lists(dists_view(ds@), peers_view(peers@)),
            i <= ds@.len(),
            lists_view(out@) == target.take(i as int),
        decreases ds@.len() - i,
    {
        let list = placement_peers(&ds[i].1, peers);
        let k = ds[i].0.clone();
        let ghost entry = (k@, strings_view(list@));
        assert(dists_view(ds@)[i as int] == (ds@[i as int].0@, ds@[i as int].1@));
        assert(target[i as int] == entry);
        let ghost ob = out@;
        out.push((k, list));
        assert(lists_view(out@) =~= lists_view(ob).push(entry));
        assert(target.take(i + 1) =~= target.take(i as int).push(entry));
        i = i + 1;
    }
    assert(target.take(i as int) =~= target);
    out
}

/// The mathematical value of a reply.
pub struct ReplyView {
    pub commands: Seq<NetworkCommandView>,
    pub peers: Seq<(Seq<char>, Seq<char>)>,
    pub network_peers: Seq<(Seq<char>, Seq<Seq<char>>)>,
    pub connect_addr: Seq<char>,
}

pub open spec fn reply_view(r: HeartbeatReply) -> ReplyView {
    ReplyView {
        commands: crate::cluster::commands_view(r.commands@),
        peers: peers_view(r.peers@),
        network_peers: lists_view(r.network_peers@),
        connect_addr: r.connect_addr@,
    }
}

pub open spec fn results_of(e: HeartbeatEvent) -> Seq<ResultView> {
    results_view(e.results@)
}

/// What the orchestrator in state `s` does with a heartbeat of worker `n` at
/// `now`, seen at `remote`, carrying results `rs`: the new state, and the
/// reply or the refusal. A known worker's heartbeat time is recorded, and the
/// results handled before a refusal stay handled.
pub open spec fn heartbeat_outcome(
    s: OrchestratorView,
    n: Seq<char>,
    now: u64,
    remote: Option<(Seq<char>, bool)>,
    rs: Seq<ResultView>,
) -> (OrchestratorView, Result<ReplyView, HeartbeatRefusal>) {
    if !knows(s.nodes, n) {
        (s, Err(HeartbeatRefusal::NotRegistered))
    } else {
        let nodes1 = touched(s.nodes, n, now);
        match consume_all(n, queue_of(s.pending_commands, n), s.activation_results, rs) {
            Err(e) => {
                let progress = consume_progress(n, queue_of(s.pending_commands, n), s.activation_results, rs);
                (
                    OrchestratorView {
                        nodes: nodes1,
                        pending_commands: with_queue(s.pending_commands, n, progress.0),
                        activation_results: progress.1,
                        ..s
                    },
                    Err(e),
                )
            },
            Ok((q1, st1)) => {
                let nodes2 = nodes1.filter(keep_node(nodes1, now));
                let i = node_index(nodes2, n)->0;
                let addrs = peer_address_spec(nodes2[i].address, remote);
                let nodes3 = nodes2.update(i, NodeView { address: addrs.0, ..nodes2[i] });
                let peers3 = upsert_peer(s.peers.filter(keep_keyed(nodes1, now)), n, addrs.1);
                let pending2 = with_queue(s.pending_commands, n, q1).filter(keep_keyed(nodes1, now));
                let dists2 = pruned_dists(s.distributions, nodes1, now);
                let peer_map = peers3.filter(fresh_peer(nodes3, now));
                (
                    OrchestratorView {
                        nodes: nodes3,
                        peers: peers3,
                        pending_commands: after_delivery(pending2, n),
                        activation_results: st1.filter(keep_keyed(nodes1, now)),
                        distributions: dists2,
                    },
                    Ok(
                        ReplyView {
                            commands: delivered(pending2, n),
                            peers: peer_map,
                            network_peers: network_peer_lists(dists2, peer_map),
                            connect_addr: addrs.1,
                        },
                    ),
                )
            },
        }
    }
}

proof fn lemma_node_index(ns: Seq<NodeView>, id: Seq<char>)
    ensures
        node_index(ns, id) is Some <==> knows(ns, id),
        node_index(ns, id) matches Some(i) ==> 0 <= i < ns.len() && ns[i].node_id == id,
    decreases ns.len(),
{
    if ns.len() > 0 {
        let d = ns.drop_last();
        lemma_node_index(d, id);
        if knows(d, id) {
            let k = choose|k: int| 0 <= k < d.len() && (#[trigger] d[k]).node_id == id;
            assert(ns[k] == d[k]);
        }
        if knows(ns, id) && !knows(d, id) {
            let k = choose|k: int| 0 <= k < ns.len() && (#[trigger] ns[k]).node_id == id;
            if k < ns.len() - 1 {
                assert(d[k] == ns[k]);
            }
        }
        if node_index(ns, id) is Some && node_index(d, id) is None {
            assert(ns[ns.len() - 1].node_id == id);
        }
    }
}

proof fn lemma_peer_index(ps: Seq<(Seq<char>, Seq<char>)>, id: Seq<char>)
    ensures
        peer_index(ps, id) matches Some(i) ==> 0 <= i < ps.len() && ps[i].0 == id,
    decreases ps.len(),
{
    if ps.len() > 0 {
        lemma_peer_index(ps.drop_last(), id);
    }
}

/// Handles one worker heartbeat. A worker the orchestrator does not know is
/// refused and must join again; so is a heartbeat whose activation results
/// conflict with acknowledged ones or acknowledge nothing queued. Otherwise
/// the worker's heartbeat time is recorded, its results consumed, every
/// worker silent for more than 20 s is pruned from the nodes, peers, queues,
/// results and placements, the worker's address is refreshed, and it receives
/// its queued commands (activation commands stay queued until acknowledged)
/// and the map of peers with a fresh heartbeat. A refused heartbeat changes
/// nothing.
pub fn heartbeat_step(state: &mut OrchestratorState, event: HeartbeatEvent) -> (r: Result<
    HeartbeatReply,
    HeartbeatRefusal,
>)
    requires
        old(state).wf(),
    ensures
        final(state).wf(),
        ({
            let outcome = heartbeat_outcome(
                old(state)@,
                event.node_id@,
                event.now_ms,
                remote_view(event.remote),
                results_of(event),
            );
            &&& final(state)@ == outcome.0
            &&& r is Ok <==> outcome.1 is Ok
            &&& r matches Err(e) ==> outcome.1 == Err::<ReplyView, HeartbeatRefusal>(e)
            &&& r matches Ok(reply) ==> outcome.1 == Ok::<ReplyView, HeartbeatRefusal>(reply_view(reply))
        }),
        !knows(old(state)@.nodes, event.node_id@) ==> r == Err::<HeartbeatReply, HeartbeatRefusal>(
            HeartbeatRefusal::NotRegistered,
        ) && final(state)@ == old(state)@,
{
    let ghost s0 = state@;
    let n = &event.node_id;
    let now = event.now_ms;
    if !knows_node(&state.nodes, n) {
        return Err(HeartbeatRefusal::NotRegistered);
    }
    let qpos = queue_position(&state.pending_commands, n);
    let mut queue: Option<Vec<QueuedCommand>> = match qpos {
        Some(i) => Some(clone_queue(&state.pending_commands[i].1)),
        None => None,
    };
    proof {
        if qpos is Some {
            assert(pending_view(state.pending_commands@)[qpos->0 as int].1 == queue_view(
                state.pending_commands@[qpos->0 as int].1@,
            ));
        }
        assert(opt_queue_view(queue) == queue_of(s0.pending_commands, n@));
    }
    let mut store = clone_store(&state.activation_results);
    let consumed = consume_results(n, &mut queue, &mut store, &event.results);
    let ghost q1 = opt_queue_view(queue);
    let ghost st1 = store_view(store@);
    // Commit the heartbeat and the results handled so far.
    touch(&mut state.nodes, n, now);
    let ghost nodes1 = state@.nodes;
    match qpos {
        Some(i) => match queue {
            Some(q) => {
                let ghost before = state.pending_commands@;
                let entry = (n.clone(), q);
                state.pending_commands.set(i, entry);
                proof {
                    lemma_queue_index(s0.pending_commands, n@);
                    assert(pending_view(state.pending_commands@) =~= pending_view(before).update(
                        i as int,
                        (n@, q1->0),
                    ));
                }
            },
            None => {},
        },
        None => {},
    }
    let ghost pending1 = state@.pending_commands;
    assert(pending1 == with_queue(s0.pending_commands, n@, q1));
    state.activation_results = store;
    proof {
        lemma_progress_ok(n@, queue_of(s0.pending_commands, n@), s0.activation_results, results_of(event));
    }
    match consumed {
        Ok(()) => {},
        Err(e) => {
            assert(state@ == (OrchestratorView {
                nodes: nodes1,
                pending_commands: with_queue(s0.pending_commands, n@, q1),
                activation_results: st1,
                ..s0
            }));
            return Err(e);
        },
    }
    // Prune every stale worker.
    let drop = stale_ids(&state.nodes, now);
    let ghost d = strings_view(drop@);
    proof {
        assert forall|e: (Seq<char>, Seq<char>)| #[trigger] unlisted::<Seq<char>>(d)(e) == keep_keyed::<Seq<char>>(nodes1, now)(e) by {}
    }
    retain_unlisted_nodes(&mut state.nodes, &drop);
    let ghost pb = state.peers@;
    retain_unlisted_pairs::<String, Seq<char>>(&mut state.peers, &drop, Ghost(|v: String| v@));
    let ghost qb = state.pending_commands@;
    retain_unlisted_pairs::<Vec<QueuedCommand>, Seq<QueuedView>>(
        &mut state.pending_commands,
        &drop,
        Ghost(|v: Vec<QueuedCommand>| queue_view(v@)),
    );
    let ghost rb = state.activation_results@;
    retain_unlisted_pairs::<ActivationResult, ResultView>(
        &mut state.activation_results,
        &drop,
        Ghost(|v: ActivationResult| result_view(v)),
    );
    prune_distributions(&mut state.distributions, &drop);
    proof {
        assert(pairs_view(pb, |v: String| v@) =~= peers_view(pb));
        assert(pairs_view(state.peers@, |v: String| v@) =~= peers_view(state.peers@));
        assert(pairs_view(qb, |v: Vec<QueuedCommand>| queue_view(v@)) =~= pending_view(qb));
        assert(pairs_view(state.pending_commands@, |v: Vec<QueuedCommand>| queue_view(v@)) =~= pending_view(state.pending_commands@));
        assert(pairs_view(rb, |v: ActivationResult| result_view(v)) =~= store_view(rb));
        assert(pairs_view(state.activation_results@, |v: ActivationResult| result_view(v)) =~= store_view(state.activation_results@));
        lemma_filter_ext(nodes1, unlisted_node(d), keep_node(nodes1, now));
        lemma_filter_ext(peers_view(pb), unlisted(d), keep_keyed(nodes1, now));
        lemma_filter_ext(pending_view(qb), unlisted(d), keep_keyed(nodes1, now));
        lemma_filter_ext(store_view(rb), unlisted(d), keep_keyed(nodes1, now));
        assert forall|k: int| 0 <= k < s0.distributions.len() implies #[trigger] s0.distributions[k].1.filter(unlisted(d))
            == s0.distributions[k].1.filter(keep_keyed(nodes1, now)) by {
            lemma_filter_ext(s0.distributions[k].1, unlisted(d), keep_keyed(nodes1, now));
        }
        assert(dists_view(state.distributions@) =~= pruned_dists(s0.distributions, nodes1, now));
    }
    let ghost nodes2 = state@.nodes;
    // Refresh the worker's address.
    proof {
        assert(knows(nodes1, n@)) by {
            let k = choose|k: int| 0 <= k < s0.nodes.len() && (#[trigger] s0.nodes[k]).node_id == n@;
            assert(nodes1[k].node_id == n@);
        }
        let k = choose|k: int| 0 <= k < nodes1.len() && (#[trigger] nodes1[k]).node_id == n@;
        assert(!stale_id(nodes1, now, n@)) by {
            if stale_id(nodes1, now, n@) {
                let j = choose|j: int| 0 <= j < nodes1.len() && (#[trigger] nodes1[j]).node_id == n@ && is_stale(
                    nodes1[j].last_heartbeat_ms,
                    now,
                );
                assert(nodes1[j].last_heartbeat_ms == Some(now));
            }
        }
        nodes1.filter_lemma(keep_node(nodes1, now));
        assert(keep_node(nodes1, now)(nodes1[k]));
        assert(nodes2.contains(nodes1[k]));
        let w = choose|w: int| 0 <= w < nodes2.len() && nodes2[w] == nodes1[k];
        assert(nodes2[w].node_id == n@);
        lemma_node_index(nodes2, n@);
    }
    let i = match node_position(&state.nodes, n) {
        Some(i) => i,
        None => {
            proof {
                lemma_node_index(nodes2, n@);
            }
            assert(false);
            return Err(HeartbeatRefusal::NotRegistered);
        },
    };
    assert(nodes2[i as int] == node_view(state.nodes@[i as int]));
    let (display, connect) = normalize_peer_address(state.nodes[i].address.as_str(), event.remote);
    let refreshed = RegisteredNode {
        node_id: state.nodes[i].node_id.clone(),
        address: display,
        last_heartbeat_ms: state.nodes[i].last_heartbeat_ms,
    };
    let ghost nb = state.nodes@;
    state.nodes.set(i, refreshed);
    assert(nodes_view(state.nodes@) =~= nodes2.update(
        i as int,
        NodeView { address: peer_address_spec(nodes2[i as int].address, remote_view(event.remote)).0, ..nodes2[i as int] },
    ));
    let ghost peers2 = state@.peers;
    let ghost pv = state.peers@;
    match peer_position(&state.peers, n) {
        Some(j) => {
            state.peers.set(j, (n.clone(), connect.clone()));
            proof {
                lemma_peer_index(peers2, n@);
                assert(peers_view(state.peers@) =~= peers2.update(j as int, (n@, connect@)));
            }
        },
        None => {
            state.peers.push((n.clone(), connect.clone()));
            assert(peers_view(state.peers@) =~= peers2.push((n@, connect@)));
        },
    }
    // Hand out the worker's commands.
    let ghost pending2 = state@.pending_commands;
    let commands = deliver(&mut state.pending_commands, n);
    let peers = fresh_peers(&state.peers, &state.nodes, now);
    let nets = network_peers(&state.distributions, &peers);
    Ok(HeartbeatReply { commands, peers, network_peers: nets, connect_addr: connect })
}

/// Everything a filter keeps comes from the filtered sequence.
proof fn lemma_filter_subset<A>(s: Seq<A>, p: spec_fn(A) -> bool)
    ensures
        forall|i: int| 0 <= i < s.filter(p).len() ==> s.contains(#[trigger] s.filter(p)[i]),
    decreases s.len(),
{
    if s.len() > 0 {
        let d = s.drop_last();
        lemma_filter_subset(d, p);
        d.lemma_filter_push(s.last(), p);
        assert(s =~= d.push(s.last()));
        assert forall|i: int| 0 <= i < s.filter(p).len() implies s.contains(#[trigger] s.filter(p)[i]) by {
            if i < d.filter(p).len() {
                assert(s.filter(p)[i] == d.filter(p)[i]);
                let k = choose|k: int| 0 <= k < d.len() && d[k] == d.filter(p)[i];
                assert(s[k] == d[k]);
            } else {
                assert(s[s.len() - 1] == s.last());
            }
        }
    } else {
        reveal(Seq::filter);
    }
}

proof fn lemma_queue_of_push(x: Seq<(Seq<char>, Seq<QueuedView>)>, y: (Seq<char>, Seq<QueuedView>), n: Seq<char>)
    ensures
        queue_of(x.push(y), n) == (match queue_of(x, n) {
            Some(q) => Some(q),
            None => if y.0 == n {
                Some(y.1)
            } else {
                None
            },
        }),
{
    assert(x.push(y).drop_last() =~= x);
    lemma_queue_index(x, n);
}

/// Filtering queues by a test that keeps every entry of `n` leaves `n`'s queue as it was.
proof fn lemma_queue_of_filter(
    pc: Seq<(Seq<char>, Seq<QueuedView>)>,
    p: spec_fn((Seq<char>, Seq<QueuedView>)) -> bool,
    n: Seq<char>,
)
    requires
        forall|e: (Seq<char>, Seq<QueuedView>)| e.0 == n ==> #[trigger] p(e),
    ensures
        queue_of(pc.filter(p), n) == queue_of(pc, n),
    decreases pc.len(),
{
    if pc.len() > 0 {
        let d = pc.drop_last();
        lemma_queue_of_filter(d, p, n);
        assert(d.push(pc.last()) =~= pc);
        d.lemma_filter_push(pc.last(), p);
        lemma_queue_of_push(d, pc.last(), n);
        if p(pc.last()) {
            lemma_queue_of_push(d.filter(p), pc.last(), n);
        }
    } else {
        reveal(Seq::filter);
    }
}

/// Queues with the same workers in the same order find a worker at the same place.
proof fn lemma_queue_index_same_keys(a: Seq<(Seq<char>, Seq<QueuedView>)>, b: Seq<(Seq<char>, Seq<QueuedView>)>, n: Seq<char>)
    requires
        a.len() == b.len(),
        forall|j: int| 0 <= j < a.len() ==> (#[trigger] a[j]).0 == b[j].0,
    ensures
        queue_index(a, n) == queue_index(b, n),
    decreases a.len(),
{
    if a.len() > 0 {
        lemma_queue_index_same_keys(a.drop_last(), b.drop_last(), n);
    }
}

/// A heartbeat of a known worker that reports no results is accepted, hands
/// the worker its whole queue in order, and leaves queued for it exactly the
/// activation commands of that queue, which wait for their results.
pub proof fn lemma_heartbeat_hands_out_queue(
    s: OrchestratorView,
    n: Seq<char>,
    now: u64,
    remote: Option<(Seq<char>, bool)>,
)
    requires
        knows(s.nodes, n),
    ensures
        heartbeat_outcome(s, n, now, remote, Seq::empty()).1 is Ok,
        heartbeat_outcome(s, n, now, remote, Seq::empty()).1->Ok_0.commands == (match queue_of(s.pending_commands, n) {
            Some(q) => q.map_values(|c: QueuedView| c.command),
            None => Seq::empty(),
        }),
        queue_of(heartbeat_outcome(s, n, now, remote, Seq::empty()).0.pending_commands, n) == (match queue_of(
            s.pending_commands,
            n,
        ) {
            Some(q) => Some(q.filter(is_activation())),
            None => None,
        }),
{
    let rs = Seq::<ResultView>::empty();
    let nodes1 = touched(s.nodes, n, now);
    let pc = s.pending_commands;
    assert(consume_all(n, queue_of(pc, n), s.activation_results, rs) == Ok::<
        (Option<Seq<QueuedView>>, Seq<(Seq<char>, ResultView)>),
        HeartbeatRefusal,
    >((queue_of(pc, n), s.activation_results)));
    lemma_queue_index(pc, n);
    assert(with_queue(pc, n, queue_of(pc, n)) =~= pc);
    assert(!stale_id(nodes1, now, n)) by {
        if stale_id(nodes1, now, n) {
            let j = choose|j: int| 0 <= j < nodes1.len() && (#[trigger] nodes1[j]).node_id == n && is_stale(
                nodes1[j].last_heartbeat_ms,
                now,
            );
            assert(nodes1[j].last_heartbeat_ms == Some(now));
        }
    }
    let p = keep_keyed::<Seq<QueuedView>>(nodes1, now);
    let pending2 = pc.filter(p);
    lemma_queue_of_filter(pc, p, n);
    assert(queue_of(pending2, n) == queue_of(pc, n));
    lemma_queue_index(pending2, n);
    match queue_of(pending2, n) {
        Some(q) => {
            let i = queue_index(pending2, n)->0;
            let after = pending2.update(i, (n, q.filter(is_activation())));
            assert(after_delivery(pending2, n) == after);
            lemma_queue_index_same_keys(after, pending2, n);
        },
        None => {},
    }
}

/// An accepted heartbeat of worker `n` at `now` leaves the command queue of
/// every other worker that is not stale at `now` as it was: pruning takes out
/// only the queues of stale workers, and delivery touches only `n`'s queue.
pub proof fn lemma_heartbeat_keeps_fresh_queues(
    s: OrchestratorView,
    n: Seq<char>,
    now: u64,
    remote: Option<(Seq<char>, bool)>,
    rs: Seq<ResultView>,
)
    ensures
        heartbeat_outcome(s, n, now, remote, rs).1 is Ok ==> forall|i: int|
            0 <= i < s.pending_commands.len() && (#[trigger] s.pending_commands[i]).0 != n && !stale_id(
                touched(s.nodes, n, now),
                now,
                s.pending_commands[i].0,
            ) ==> heartbeat_outcome(s, n, now, remote, rs).0.pending_commands.contains(s.pending_commands[i]),
{
    if heartbeat_outcome(s, n, now, remote, rs).1 is Ok {
        let nodes1 = touched(s.nodes, n, now);
        let (q1, st1) = consume_all(n, queue_of(s.pending_commands, n), s.activation_results, rs)->Ok_0;
        let t = heartbeat_outcome(s, n, now, remote, rs).0;
        let pending1 = with_queue(s.pending_commands, n, q1);
        let pending2 = pending1.filter(keep_keyed(nodes1, now));
        pending1.filter_lemma(keep_keyed(nodes1, now));
        lemma_queue_index(s.pending_commands, n);
        lemma_queue_index(pending2, n);
        assert(t.pending_commands == after_delivery(pending2, n));
        assert forall|i: int|
            0 <= i < s.pending_commands.len() && (#[trigger] s.pending_commands[i]).0 != n && !stale_id(
                nodes1,
                now,
                s.pending_commands[i].0,
            ) implies t.pending_commands.contains(s.pending_commands[i]) by {
            let e = s.pending_commands[i];
            assert(pending1[i] == e);
            assert(keep_keyed(nodes1, now)(pending1[i]));
            assert(pending2.contains(e));
            let j = choose|j: int| 0 <= j < pending2.len() && pending2[j] == e;
            match queue_index(pending2, n) {
                Some(k) => {
                    assert(j != k);
                    assert(t.pending_commands[j] == e);
                },
                None => {
                    assert(t.pending_commands[j] == e);
                },
            }
        }
    }
}

/// After an accepted heartbeat of worker `n` at `now`: the worker's records
/// carry `now` as their last heartbeat; no worker whose last heartbeat was
/// more than 20 s before `now` is left among the nodes, peers, command
/// queues, acknowledged results or any placement; and every peer in the
/// reply has a fresh heartbeat.
pub proof fn lemma_heartbeat_prunes_and_refreshes(
    s: OrchestratorView,
    n: Seq<char>,
    now: u64,
    remote: Option<(Seq<char>, bool)>,
    rs: Seq<ResultView>,
)
    ensures
        heartbeat_outcome(s, n, now, remote, rs).1 is Ok ==> {
            let x = (heartbeat_outcome(s, n, now, remote, rs).0, heartbeat_outcome(s, n, now, remote, rs).1->Ok_0);
            let t = x.0;
            let stale = |id: Seq<char>| stale_id(touched(s.nodes, n, now), now, id);
            &&& forall|i: int| 0 <= i < t.nodes.len() && (#[trigger] t.nodes[i]).node_id == n
                ==> t.nodes[i].last_heartbeat_ms == Some(now)
            &&& forall|i: int| 0 <= i < t.nodes.len() ==> !stale((#[trigger] t.nodes[i]).node_id)
            &&& forall|i: int| 0 <= i < t.peers.len() ==> !stale((#[trigger] t.peers[i]).0)
            &&& forall|i: int| 0 <= i < t.activation_results.len() ==> !stale(
                (#[trigger] t.activation_results[i]).0,
            )
            &&& forall|i: int| 0 <= i < t.pending_commands.len() ==> !stale(
                (#[trigger] t.pending_commands[i]).0,
            )
            &&& forall|k: int, j: int|
                0 <= k < t.distributions.len() && 0 <= j < t.distributions[k].1.len() ==> !stale(
                    (#[trigger] t.distributions[k].1[j]).0,
                )
            &&& forall|i: int| 0 <= i < x.1.peers.len() ==> fresh(t.nodes, now, (#[trigger] x.1.peers[i]).0)
        },
{
    if heartbeat_outcome(s, n, now, remote, rs).1 is Ok {
        let nodes1 = touched(s.nodes, n, now);
        let (q1, st1) = consume_all(n, queue_of(s.pending_commands, n), s.activation_results, rs)->Ok_0;
        let nodes2 = nodes1.filter(keep_node(nodes1, now));
        nodes1.filter_lemma(keep_node(nodes1, now));
        lemma_filter_subset(nodes1, keep_node(nodes1, now));
        let x = (heartbeat_outcome(s, n, now, remote, rs).0, heartbeat_outcome(s, n, now, remote, rs).1->Ok_0);
        let t = x.0;
        let i0 = node_index(nodes2, n)->0;
        assert(!stale_id(nodes1, now, n)) by {
            if stale_id(nodes1, now, n) {
                let j = choose|j: int| 0 <= j < nodes1.len() && (#[trigger] nodes1[j]).node_id == n && is_stale(
                    nodes1[j].last_heartbeat_ms,
                    now,
                );
                assert(nodes1[j].last_heartbeat_ms == Some(now));
            }
        }
        assert(knows(nodes1, n)) by {
            let k = choose|k: int| 0 <= k < s.nodes.len() && (#[trigger] s.nodes[k]).node_id == n;
            assert(nodes1[k].node_id == n);
        }
        let k0 = choose|k: int| 0 <= k < nodes1.len() && (#[trigger] nodes1[k]).node_id == n;
        assert(keep_node(nodes1, now)(nodes1[k0]));
        assert(nodes2.contains(nodes1[k0]));
        let w = choose|w: int| 0 <= w < nodes2.len() && nodes2[w] == nodes1[k0];
        assert(nodes2[w].node_id == n);
        lemma_node_index(nodes2, n);
        assert(0 <= i0 < nodes2.len());
        assert(t.nodes.len() == nodes2.len());
        assert forall|i: int| 0 <= i < t.nodes.len() && (#[trigger] t.nodes[i]).node_id == n
            implies t.nodes[i].last_heartbeat_ms == Some(now) by {
            assert(t.nodes[i].last_heartbeat_ms == nodes2[i].last_heartbeat_ms);
            assert(nodes2[i].node_id == n);
            assert(nodes1.contains(nodes2[i]));
            let k = choose|k: int| 0 <= k < nodes1.len() && nodes1[k] == nodes2[i];
        }
        assert forall|i: int| 0 <= i < t.nodes.len() implies !stale_id(nodes1, now, (#[trigger] t.nodes[i]).node_id) by {
            assert(t.nodes[i].node_id == nodes2[i].node_id);
            assert(keep_node(nodes1, now)(nodes2[i]));
        }
        let peers2 = s.peers.filter(keep_keyed(nodes1, now));
        peers2.len();
        s.peers.filter_lemma(keep_keyed(nodes1, now));
        assert(!stale_id(nodes1, now, n)) by {
            if stale_id(nodes1, now, n) {
                let j = choose|j: int| 0 <= j < nodes1.len() && (#[trigger] nodes1[j]).node_id == n && is_stale(
                    nodes1[j].last_heartbeat_ms,
                    now,
                );
                assert(nodes1[j].last_heartbeat_ms == Some(now));
            }
        }
        lemma_peer_index(peers2, n);
        assert forall|i: int| 0 <= i < t.peers.len() implies !stale_id(nodes1, now, (#[trigger] t.peers[i]).0) by {
            match peer_index(peers2, n) {
                Some(j) => {
                    if i != j {
                        assert(t.peers[i] == peers2[i]);
                        assert(keep_keyed(nodes1, now)(peers2[i]));
                    }
                },
                None => {
                    if i < peers2.len() {
                        assert(t.peers[i] == peers2[i]);
                        assert(keep_keyed(nodes1, now)(peers2[i]));
                    }
                },
            }
        }
        st1.filter_lemma(keep_keyed(nodes1, now));
        let pending2 = with_queue(s.pending_commands, n, q1).filter(keep_keyed(nodes1, now));
        with_queue(s.pending_commands, n, q1).filter_lemma(keep_keyed(nodes1, now));
        lemma_queue_index(pending2, n);
        assert forall|i: int| 0 <= i < t.pending_commands.len() implies !stale_id(
            nodes1,
            now,
            (#[trigger] t.pending_commands[i]).0,
        ) by {
            assert(keep_keyed(nodes1, now)(pending2[i]));
            match queue_index(pending2, n) {
                Some(j) => {
                    if i != j {
                        assert(t.pending_commands[i] == pending2[i]);
                    } else {
                        assert(t.pending_commands[i].0 == pending2[j].0);
                    }
                },
                None => {
                    assert(t.pending_commands[i] == pending2[i]);
                },
            }
        }
        assert forall|i: int| 0 <= i < t.activation_results.len() implies !stale_id(
            nodes1,
            now,
            (#[trigger] t.activation_results[i]).0,
        ) by {
            assert(keep_keyed(nodes1, now)(t.activation_results[i]));
        }
        assert forall|k: int, j: int|
            0 <= k < t.distributions.len() && 0 <= j < t.distributions[k].1.len() implies !stale_id(
                nodes1,
                now,
                (#[trigger] t.distributions[k].1[j]).0,
            ) by {
            s.distributions[k].1.filter_lemma(keep_keyed(nodes1, now));
            assert(t.distributions[k].1 == s.distributions[k].1.filter(keep_keyed(nodes1, now)));
            assert(keep_keyed(nodes1, now)(t.distributions[k].1[j]));
        }
        let peers3 = t.peers;
        peers3.filter_lemma(fresh_peer(t.nodes, now));
        assert forall|i: int| 0 <= i < x.1.peers.len() implies fresh(t.nodes, now, (#[trigger] x.1.peers[i]).0) by {
            assert(fresh_peer(t.nodes, now)(x.1.peers[i]));
        }
    }
}

} // verus!
