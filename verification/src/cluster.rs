//! Small decisions of the cluster layer: command/action mapping, the pending
//! command queue policy, spike transport names, MPI ranks encoded in node ids,
//! and millisecond settings with defaults.

use crate::scan::{
    all_digits, chars_of, digits_value, has_prefix_at, parse_unsigned, parse_unsigned_at, starts_with, trim,
    trim_bounds,
};
use vstd::prelude::*;
use vstd::string::*;

verus! {

/// The kind of a command sent to a compute node.
#[derive(Clone, Copy, Debug, PartialEq, Eq, Structural)]
pub enum CommandType {
    LoadNetwork,
    UnloadNetwork,
    Start,
    Stop,
    Repeat,
    Reset,
    ActivateStableWorker,
}

/// A playback control action on a managed network.
#[derive(Clone, Copy, Debug, PartialEq, Eq, Structural)]
pub enum ControlAction {
    Start,
    Stop,
    Repeat,
    Reset,
    New,
}

/// The control action a playback command stands for.
pub open spec fn action_of(cmd_type: CommandType) -> Option<ControlAction> {
    match cmd_type {
        CommandType::Start => Some(ControlAction::Start),
        CommandType::Stop => Some(ControlAction::Stop),
        CommandType::Repeat => Some(ControlAction::Repeat),
        CommandType::Reset => Some(ControlAction::Reset),
        _ => None,
    }
}

/// The command that carries a control action; `New` loads a network.
pub open spec fn command_of(action: ControlAction) -> CommandType {
    match action {
        ControlAction::Start => CommandType::Start,
        ControlAction::Stop => CommandType::Stop,
        ControlAction::Repeat => CommandType::Repeat,
        ControlAction::Reset => CommandType::Reset,
        ControlAction::New => CommandType::LoadNetwork,
    }
}

/// The control action a command stands for, if it is a playback command.
pub fn control_action_from_command(cmd_type: CommandType) -> (r: Option<ControlAction>)
    ensures
        r == action_of(cmd_type),
{
    match cmd_type {
        CommandType::Start => Some(ControlAction::Start),
        CommandType::Stop => Some(ControlAction::Stop),
        CommandType::Repeat => Some(ControlAction::Repeat),
        CommandType::Reset => Some(ControlAction::Reset),
        _ => None,
    }
}

/// The command that carries a control action.
pub fn command_type_from_action(action: ControlAction) -> (r: CommandType)
    ensures
        r == command_of(action),
{
    match action {
        ControlAction::Start => CommandType::Start,
        ControlAction::Stop => CommandType::Stop,
        ControlAction::Repeat => CommandType::Repeat,
        ControlAction::Reset => CommandType::Reset,
        ControlAction::New => CommandType::LoadNetwork,
    }
}

/// A playback command and its control action map to each other; every action
/// but `New` comes back from its command.
pub proof fn lemma_control_command_roundtrip(cmd_type: CommandType, action: ControlAction)
    ensures
        action_of(cmd_type) matches Some(a) ==> command_of(a) == cmd_type,
        action != ControlAction::New ==> action_of(command_of(action)) == Some(action),
{
}

/// A command queued for a compute node.
#[derive(Clone, Debug)]
pub struct NetworkCommand {
    pub command_type: CommandType,
    pub network_id: String,
    pub config_json: Vec<u8>,
    pub layers: Vec<u32>,
    pub redundant_layers: Vec<u32>,
    pub desired_aarnn_depth: u32,
    pub neuron_model: String,
    pub learning_rule: String,
}

/// Mathematical value of a [`NetworkCommand`].
pub struct NetworkCommandView {
    pub command_type: CommandType,
    pub network_id: Seq<char>,
    pub config_json: Seq<u8>,
    pub layers: Seq<u32>,
    pub redundant_layers: Seq<u32>,
    pub desired_aarnn_depth: u32,
    pub neuron_model: Seq<char>,
    pub learning_rule: Seq<char>,
}

impl View for NetworkCommand {
    type V = NetworkCommandView;

    open spec fn view(&self) -> NetworkCommandView {
        NetworkCommandView {
            command_type: self.command_type,
            network_id: self.network_id@,
            config_json: self.config_json@,
            layers: self.layers@,
            redundant_layers: self.redundant_layers@,
            desired_aarnn_depth: self.desired_aarnn_depth,
            neuron_model: self.neuron_model@,
            learning_rule: self.learning_rule@,
        }
    }
}

pub open spec fn commands_view(q: Seq<NetworkCommand>) -> Seq<NetworkCommandView> {
    q.map_values(|c: NetworkCommand| c@)
}

/// The most commands queued for one node.
pub open spec fn max_pending_commands() -> nat {
    64
}

/// `c` is superseded by `cmd`: same network, same kind.
pub open spec fn superseded_by(c: NetworkCommandView, cmd: NetworkCommandView) -> bool {
    c.network_id == cmd.network_id && c.command_type == cmd.command_type
}

/// The queued commands that `cmd` does not supersede, in order.
pub open spec fn kept_commands(q: Seq<NetworkCommandView>, cmd: NetworkCommandView) -> Seq<NetworkCommandView>
    decreases q.len(),
{
    if q.len() == 0 {
        Seq::empty()
    } else if superseded_by(q.last(), cmd) {
        kept_commands(q.drop_last(), cmd)
    } else {
        kept_commands(q.drop_last(), cmd).push(q.last())
    }
}

/// The queue after enqueueing `cmd`: superseded commands leave, `cmd` goes to
/// the back, and only the newest [`max_pending_commands`] stay.
pub open spec fn enqueued(q: Seq<NetworkCommandView>, cmd: NetworkCommandView) -> Seq<NetworkCommandView> {
    let all = kept_commands(q, cmd).push(cmd);
    if all.len() > max_pending_commands() {
        all.skip(all.len() - max_pending_commands())
    } else {
        all
    }
}

/// Queues `cmd` for a node, replacing any queued command of the same kind
/// for the same network and dropping the oldest beyond the queue's bound.
pub fn enqueue_pending_command(queue: &mut Vec<NetworkCommand>, cmd: NetworkCommand)
    ensures
        commands_view(final(queue)@) == enqueued(commands_view(old(queue)@), cmd@),
{
    let ghost q = commands_view(queue@);
    let mut kept: Vec<NetworkCommand> = Vec::new();
    let mut i: usize = 0;
    assert(q.take(0) =~= Seq::<NetworkCommandView>::empty());
    while i < queue.len()
        invariant
            i <= queue@.len(),
            q == commands_view(queue@),
            queue@ == old(queue)@,
            commands_view(kept@) == kept_commands(q.take(i as int), cmd@),
        decreases queue@.len() - i,
    {
        assert(q.take(i + 1).drop_last() =~= q.take(i as int));
        assert(q.take(i + 1).last() == queue@[i as int]@);
        let same = queue[i].network_id == cmd.network_id && queue[i].command_type == cmd.command_type;
        if !same {
            let ghost before = kept@;
            kept.push(queue[i].clone_command());
            assert(commands_view(kept@) =~= commands_view(before).push(queue@[i as int]@));
        }
        i = i + 1;
    }
    assert(q.take(i as int) =~= q);
    let ghost before = kept@;
    kept.push(cmd);
    let ghost all = commands_view(kept@);
    assert(all =~= commands_view(before).push(cmd@));
    if kept.len() > 64 {
        let overflow = kept.len() - 64;
        let mut out: Vec<NetworkCommand> = Vec::new();
        let mut j: usize = overflow;
        while j < kept.len()
            invariant
                overflow <= j <= kept@.len(),
                all == commands_view(kept@),
                commands_view(out@) == all.subrange(overflow as int, j as int),
            decreases kept@.len() - j,
        {
            let ghost prev = out@;
            let c = kept[j].clone_command();
            assert(c@ == all[j as int]);
            out.push(c);
            assert(commands_view(out@) =~= commands_view(prev).push(c@));
            assert(commands_view(out@) =~= all.subrange(overflow as int, j + 1));
            j = j + 1;
        }
        assert(all.subrange(overflow as int, all.len() as int) =~= all.skip(all.len() - 64));
        *queue = out;
    } else {
        *queue = kept;
    }
}

impl NetworkCommand {
    /// A field-for-field copy.
    pub fn clone_command(&self) -> (r: NetworkCommand)
        ensures
            r@ == self@,
    {
        NetworkCommand {
            command_type: self.command_type,
            network_id: self.network_id.clone(),
            config_json: crate::wal::copy_bytes(self.config_json.as_slice()),
            layers: copy_u32s(&self.layers),
            redundant_layers: copy_u32s(&self.redundant_layers),
            desired_aarnn_depth: self.desired_aarnn_depth,
            neuron_model: self.neuron_model.clone(),
            learning_rule: self.learning_rule.clone(),
        }
    }
}

fn copy_u32s(v: &Vec<u32>) -> (r: Vec<u32>)
    ensures
        r@ == v@,
{
    let mut r: Vec<u32> = Vec::new();
    let mut i: usize = 0;
    while i < v.len()
        invariant
            i <= v@.len(),
            r@ == v@.subrange(0, i as int),
        decreases v@.len() - i,
    {
        r.push(v[i]);
        i = i + 1;
        assert(r@ =~= v@.subrange(0, i as int));
    }
    assert(v@.subrange(0, i as int) =~= v@);
    r
}

/// How spikes travel to a peer.
#[derive(Clone, Copy, Debug, PartialEq, Eq, Structural)]
pub enum SpikeTransportMethod {
    Mpi,
    PersistentStream,
    BurstStream,
}

impl SpikeTransportMethod {
    /// The method's name in telemetry.
    pub fn as_str(self) -> (r: &'static str)
        ensures
            r@ == match self {
                SpikeTransportMethod::Mpi => "mpi"@,
                SpikeTransportMethod::PersistentStream => "persistent-grpc-stream"@,
                SpikeTransportMethod::BurstStream => "burst-grpc-stream"@,
            },
    {
        match self {
            SpikeTransportMethod::Mpi => {
                proof {
                    reveal_strlit("mpi");
                }
                "mpi"
            },
            SpikeTransportMethod::PersistentStream => {
                proof {
                    reveal_strlit("persistent-grpc-stream");
                }
                "persistent-grpc-stream"
            },
            SpikeTransportMethod::BurstStream => {
                proof {
                    reveal_strlit("burst-grpc-stream");
                }
                "burst-grpc-stream"
            },
        }
    }
}

/// The value `str::parse::<i32>` gives: an optional sign, then one or more
/// decimal digits, within range.
pub open spec fn parse_i32_spec(s: Seq<char>) -> Option<int> {
    if s.len() > 0 && s[0] == '-' {
        let d = s.drop_first();
        if d.len() > 0 && all_digits(d) && digits_value(d) <= 2147483648 {
            Some(-(digits_value(d) as int))
        } else {
            None
        }
    } else {
        match parse_unsigned(s, 2147483647) {
            Some(v) => Some(v as int),
            None => None,
        }
    }
}

/// `i` is where the last occurrence of `p` in `s` starts.
pub open spec fn is_last_occurrence(s: Seq<char>, p: Seq<char>, i: int) -> bool {
    &&& 0 <= i && i + p.len() <= s.len()
    &&& s.subrange(i, i + p.len()) == p
    &&& forall|j: int| i < j && j + p.len() <= s.len() ==> #[trigger] s.subrange(j, j + p.len()) != p
}

/// The MPI rank a node id encodes after its last `_mpi`.
pub open spec fn mpi_rank_spec(node_id: Seq<char>) -> Option<int> {
    if exists|i: int| is_last_occurrence(node_id, "_mpi"@, i) {
        let i = choose|i: int| is_last_occurrence(node_id, "_mpi"@, i);
        parse_i32_spec(node_id.skip(i + 4))
    } else {
        None
    }
}

/// Parses `v[from..to]` as an `i32`.
fn parse_i32_at(v: &Vec<char>, from: usize, to: usize) -> (r: Option<i32>)
    requires
        from <= to <= v@.len(),
    ensures
        r matches Some(x) ==> parse_i32_spec(v@.subrange(from as int, to as int)) == Some(x as int),
        r is None ==> parse_i32_spec(v@.subrange(from as int, to as int)) is None,
{
    let ghost s = v@.subrange(from as int, to as int);
    if from < to && v[from] == '-' {
        let ghost d = s.drop_first();
        assert(d =~= v@.subrange(from + 1, to as int));
        if from + 1 < to && v[from + 1] == '+' {
            assert(d[0] == '+');
            assert(!crate::scan::is_digit(d[0]));
            return None;
        }
        if from + 1 == to {
            return None;
        }
        assert(crate::scan::unsigned_digits(d) == d);
        match parse_unsigned_at(v, from + 1, to, 2147483648) {
            None => None,
            Some(x) => {
                let wide: i64 = -(x as i64);
                Some(wide as i32)
            },
        }
    } else {
        match parse_unsigned_at(v, from, to, 2147483647) {
            None => None,
            Some(x) => Some(x as i32),
        }
    }
}

/// The MPI rank encoded in a node id: what follows its last `_mpi`, read as
/// an `i32`.
pub fn mpi_rank_from_node_id(node_id: &str) -> (r: Option<i32>)
    ensures
        r matches Some(x) ==> mpi_rank_spec(node_id@) == Some(x as int),
        r is None ==> mpi_rank_spec(node_id@) is None,
{
    proof {
        reveal_strlit("_mpi");
        assert("_mpi"@.len() == 4);
    }
    let v = chars_of(node_id);
    let n = v.len();
    if n < 4 {
        proof {
            if exists|i: int| is_last_occurrence(node_id@, "_mpi"@, i) {
                let i = choose|i: int| is_last_occurrence(node_id@, "_mpi"@, i);
                assert(false);
            }
        }
        return None;
    }
    let mut i: usize = n - 4;
    loop
        invariant
            n == v@.len(),
            v@ == node_id@,
            n >= 4,
            i + 4 <= n,
            "_mpi"@.len() == 4,
            forall|j: int| i < j && j + "_mpi"@.len() <= n ==> #[trigger] v@.subrange(j, j + "_mpi"@.len()) != "_mpi"@,
        decreases i,
    {
        if has_prefix_at(&v, i, n, "_mpi") {
            assert(v@.subrange(i as int, n as int).subrange(0, 4) =~= v@.subrange(i as int, i + 4));
            assert(is_last_occurrence(node_id@, "_mpi"@, i as int));
            proof {
                let k = choose|k: int| is_last_occurrence(node_id@, "_mpi"@, k);
                assert(k == i) by {
                    if k > i {
                        assert(v@.subrange(k, k + 4) != "_mpi"@);
                    } else if k < i {
                        assert(node_id@.subrange(i as int, i + 4) == "_mpi"@);
                    }
                }
                assert(v@.subrange(i + 4, n as int) =~= node_id@.skip(i + 4));
            }
            return parse_i32_at(&v, i + 4, n);
        }
        assert(v@.subrange(i as int, n as int).subrange(0, 4) =~= v@.subrange(i as int, i + 4));
        if i == 0 {
            proof {
                if exists|k: int| is_last_occurrence(node_id@, "_mpi"@, k) {
                    let k = choose|k: int| is_last_occurrence(node_id@, "_mpi"@, k);
                    assert(v@.subrange(k, k + 4) == "_mpi"@);
                }
            }
            return None;
        }
        i = i - 1;
    }
}

/// A millisecond setting: the configured value, trimmed and read as a
/// positive integer, or `default_ms` when it is absent or unusable.
pub open spec fn setting_ms_spec(value: Option<Seq<char>>, default_ms: u64) -> u64 {
    match value {
        None => default_ms,
        Some(s) => match parse_unsigned(trim(s), u64::MAX as nat) {
            Some(v) => if v > 0 {
                v as u64
            } else {
                default_ms
            },
            None => default_ms,
        },
    }
}

pub open spec fn opt_str_view(value: Option<&str>) -> Option<Seq<char>> {
    match value {
        Some(s) => Some(s@),
        None => None,
    }
}

/// Reads a millisecond setting, falling back to `default_ms`.
pub fn setting_ms(value: Option<&str>, default_ms: u64) -> (r: u64)
    ensures
        r == setting_ms_spec(opt_str_view(value), default_ms),
{
    match value {
        None => default_ms,
        Some(s) => {
            let v = chars_of(s);
            let n = v.len();
            let (a, b) = trim_bounds(&v, 0, n);
            assert(v@.subrange(0, n as int) =~= s@);
            match parse_unsigned_at(&v, a, b, u64::MAX) {
                Some(x) => if x > 0 {
                    x
                } else {
                    default_ms
                },
                None => default_ms,
            }
        },
    }
}

/// The Tracey status request timeout in milliseconds (default 80).
pub fn tracey_status_timeout(setting: Option<&str>) -> (r: u64)
    ensures
        r == setting_ms_spec(opt_str_view(setting), 80),
{
    setting_ms(setting, 80)
}

/// The spike burst timeout in milliseconds (default 120).
pub fn spike_burst_timeout(setting: Option<&str>) -> (r: u64)
    ensures
        r == setting_ms_spec(opt_str_view(setting), 120),
{
    setting_ms(setting, 120)
}

/// How long a Tracey status stays cached, in milliseconds (default 1000).
pub fn tracey_status_cache_ttl(setting: Option<&str>) -> (r: u64)
    ensures
        r == setting_ms_spec(opt_str_view(setting), 1000),
{
    setting_ms(setting, 1000)
}

/// How long to back off after a failed Tracey status request, in
/// milliseconds (default 2000).
pub fn tracey_status_failure_backoff(setting: Option<&str>) -> (r: u64)
    ensures
        r == setting_ms_spec(opt_str_view(setting), 2000),
{
    setting_ms(setting, 2000)
}

/// How many steps pass between workspace autosaves unless a binding says
/// otherwise.
pub fn default_workspace_autosave_steps() -> (r: u64)
    ensures
        r == 10,
{
    10
}

/// Where a network's workspace snapshots are saved.
#[derive(Clone, Debug)]
pub struct NetworkWorkspaceBinding {
    pub workspace_id: String,
    pub latest_snapshot_path: String,
    pub manifest_path: Option<String>,
    pub autosave_steps: u64,
}

/// The words a boolean setting is read from.
pub open spec fn flag_value(s: Seq<char>) -> Option<bool> {
    let l = crate::endpoints::ascii_lower_seq(trim(s));
    if l == "1"@ || l == "true"@ || l == "yes"@ || l == "on"@ {
        Some(true)
    } else if l == "0"@ || l == "false"@ || l == "no"@ || l == "off"@ {
        Some(false)
    } else {
        None
    }
}

/// Reads a boolean setting: `1`, `true`, `yes` or `on` (in any case, trimmed)
/// is set, `0`, `false`, `no` or `off` is unset, anything else says nothing.
pub fn env_flag(value: Option<&str>) -> (r: Option<bool>)
    ensures
        r == match opt_str_view(value) {
            None => None,
            Some(s) => flag_value(s),
        },
{
    match value {
        None => None,
        Some(s) => {
            let v = chars_of(s);
            let n = v.len();
            let (a, b) = trim_bounds(&v, 0, n);
            assert(v@.subrange(0, n as int) =~= s@);
            if crate::endpoints::lower_equals(&v, a, b, "1") || crate::endpoints::lower_equals(&v, a, b, "true")
                || crate::endpoints::lower_equals(&v, a, b, "yes") || crate::endpoints::lower_equals(&v, a, b, "on") {
                Some(true)
            } else if crate::endpoints::lower_equals(&v, a, b, "0") || crate::endpoints::lower_equals(
                &v,
                a,
                b,
                "false",
            ) || crate::endpoints::lower_equals(&v, a, b, "no") || crate::endpoints::lower_equals(&v, a, b, "off") {
                Some(false)
            } else {
                None
            }
        },
    }
}

/// The gRPC message size bound: the configured byte count when it is at
/// least 4 MiB, else 512 MiB.
pub open spec fn grpc_max_message_spec(value: Option<Seq<char>>) -> nat {
    match value {
        None => 536870912,
        Some(s) => match parse_unsigned(trim(s), usize::MAX as nat) {
            Some(v) => if v >= 4194304 {
                v
            } else {
                536870912
            },
            None => 536870912,
        },
    }
}

/// Reads the gRPC message size bound.
pub fn grpc_max_message_bytes(setting: Option<&str>) -> (r: usize)
    ensures
        r as nat == grpc_max_message_spec(opt_str_view(setting)),
{
    match setting {
        None => 536870912,
        Some(s) => {
            let v = chars_of(s);
            let n = v.len();
            let (a, b) = trim_bounds(&v, 0, n);
            assert(v@.subrange(0, n as int) =~= s@);
            match parse_unsigned_at(&v, a, b, usize::MAX as u64) {
                Some(x) => if x >= 4194304 {
                    x as usize
                } else {
                    536870912
                },
                None => 536870912,
            }
        },
    }
}

/// The commands of `q` that a new command `cmd` leaves queued.
proof fn lemma_kept_is_filter(q: Seq<NetworkCommandView>, cmd: NetworkCommandView)
    ensures
        kept_commands(q, cmd) == q.filter(
            |c: NetworkCommandView| c.network_id != cmd.network_id || c.command_type != cmd.command_type,
        ),
    decreases q.len(),
{
    let p = |c: NetworkCommandView| c.network_id != cmd.network_id || c.command_type != cmd.command_type;
    if q.len() > 0 {
        lemma_kept_is_filter(q.drop_last(), cmd);
        q.drop_last().lemma_filter_push(q.last(), p);
        assert(q.drop_last().push(q.last()) =~= q);
    } else {
        reveal(Seq::filter);
    }
}

/// Below its bound, enqueueing keeps, in order, exactly the queued commands
/// of another network or another kind, and puts the new command last.
pub proof fn lemma_enqueue_keeps_other_commands(q: Seq<NetworkCommandView>, cmd: NetworkCommandView)
    requires
        q.len() < 64,
    ensures
        enqueued(q, cmd) == q.filter(
            |c: NetworkCommandView| c.network_id != cmd.network_id || c.command_type != cmd.command_type,
        ).push(cmd),
{
    let p = |c: NetworkCommandView| c.network_id != cmd.network_id || c.command_type != cmd.command_type;
    lemma_kept_is_filter(q, cmd);
    q.filter_lemma(p);
}

/// The queue holds at most 64 commands: of the commands that enqueueing
/// keeps followed by the new one, the newest 64 stay, in order.
pub proof fn lemma_enqueue_keeps_newest(q: Seq<NetworkCommandView>, cmd: NetworkCommandView)
    ensures
        ({
            let all = q.filter(
                |c: NetworkCommandView| c.network_id != cmd.network_id || c.command_type != cmd.command_type,
            ).push(cmd);
            let out = enqueued(q, cmd);
            &&& out.len() == if all.len() > 64 { 64 } else { all.len() }
            &&& forall|j: int| 0 <= j < out.len() ==> #[trigger] out[j] == all[all.len() - out.len() + j]
        }),
{
    lemma_kept_is_filter(q, cmd);
}

/// Whatever the queue, the new command ends up last and no other queued
/// command shares its network and kind.
pub proof fn lemma_enqueue_replaces_same_kind(q: Seq<NetworkCommandView>, cmd: NetworkCommandView)
    ensures
        enqueued(q, cmd).len() > 0,
        enqueued(q, cmd).last() == cmd,
        forall|j: int|
            0 <= j < enqueued(q, cmd).len() - 1 ==> !((#[trigger] enqueued(q, cmd)[j]).network_id == cmd.network_id
                && enqueued(q, cmd)[j].command_type == cmd.command_type),
{
    let p = |c: NetworkCommandView| c.network_id != cmd.network_id || c.command_type != cmd.command_type;
    lemma_kept_is_filter(q, cmd);
    q.filter_lemma(p);
    let all = kept_commands(q, cmd).push(cmd);
    let out = enqueued(q, cmd);
    assert forall|j: int| 0 <= j < out.len() - 1 implies !((#[trigger] out[j]).network_id == cmd.network_id
        && out[j].command_type == cmd.command_type) by {
        if all.len() > 64 {
            let off = all.len() - 64;
            assert(out[j] == all[j + off]);
            assert(p(kept_commands(q, cmd)[j + off]));
        } else {
            assert(out[j] == all[j]);
            assert(p(kept_commands(q, cmd)[j]));
        }
    }
}

} // verus!
