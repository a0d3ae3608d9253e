use aarnn::cluster::{CommandType, NetworkCommand};
use aarnn::endpoints::RemotePeer;
use aarnn::heartbeat::{
    heartbeat_step, ActivationIdentity, ActivationResult, HeartbeatEvent, HeartbeatRefusal, OrchestratorState,
    QueuedCommand, RegisteredNode,
};
use aarnn::placement::{LayerDistribution, LayerRange};

fn node(id: &str, address: &str, last: Option<u64>) -> RegisteredNode {
    RegisteredNode { node_id: id.to_string(), address: address.to_string(), last_heartbeat_ms: last }
}

fn command(network: &str, kind: CommandType) -> NetworkCommand {
    NetworkCommand {
        command_type: kind,
        network_id: network.to_string(),
        config_json: Vec::new(),
        layers: Vec::new(),
        redundant_layers: Vec::new(),
        desired_aarnn_depth: 0,
        neuron_model: String::new(),
        learning_rule: String::new(),
    }
}

fn identity(request: &str) -> ActivationIdentity {
    ActivationIdentity {
        network_id: "net".to_string(),
        request_id: request.to_string(),
        manifest_digest: "d".repeat(64),
        placement_idempotency_key: "key".to_string(),
    }
}

fn result(request: &str, accepted: bool) -> ActivationResult {
    ActivationResult {
        command_type: CommandType::ActivateStableWorker,
        network_id: "net".to_string(),
        request_id: request.to_string(),
        manifest_digest: "d".repeat(64),
        placement_idempotency_key: "key".to_string(),
        brain_id: 1,
        accepted,
        error: if accepted { String::new() } else { "failed".to_string() },
    }
}

fn state() -> OrchestratorState {
    let mut dist = LayerDistribution::new();
    let range = LayerRange { layers: vec![0], layer_neuron_counts: Vec::new(), backup_layers: Vec::new() };
    dist.insert("a".to_string(), range.clone());
    dist.insert("b".to_string(), range);
    OrchestratorState {
        nodes: vec![node("a", "0.0.0.0:7000", Some(1_000)), node("b", "b:7000", Some(50_000))],
        peers: vec![("a".to_string(), "http://a:7000".to_string()), ("b".to_string(), "http://b:7000".to_string())],
        pending_commands: vec![(
            "b".to_string(),
            vec![
                QueuedCommand { command: command("net", CommandType::Start), activation: None },
                QueuedCommand {
                    command: command("net", CommandType::ActivateStableWorker),
                    activation: Some(identity("r1")),
                },
            ],
        )],
        activation_results: Vec::new(),
        distributions: vec![("net".to_string(), dist)],
    }
}

fn event(id: &str, now: u64, results: Vec<ActivationResult>) -> HeartbeatEvent {
    HeartbeatEvent {
        node_id: id.to_string(),
        now_ms: now,
        remote: Some(RemotePeer { ip: "10.0.0.9".to_string(), is_loopback: false }),
        results,
    }
}

#[test]
fn heartbeat_from_unknown_worker_requires_rejoin() {
    let mut s = state();
    assert!(matches!(
        heartbeat_step(&mut s, event("zz", 60_000, Vec::new())),
        Err(HeartbeatRefusal::NotRegistered)
    ));
    assert_eq!(s.nodes.len(), 2);
}

#[test]
fn heartbeat_prunes_stale_workers_and_delivers_commands() {
    let mut s = state();
    let reply = match heartbeat_step(&mut s, event("b", 60_000, Vec::new())) {
        Ok(r) => r,
        Err(_) => panic!("heartbeat refused"),
    };
    assert_eq!(s.nodes.len(), 1);
    assert_eq!(s.nodes[0].node_id, "b");
    assert_eq!(s.nodes[0].last_heartbeat_ms, Some(60_000));
    assert!(s.peers.iter().all(|(id, _)| id != "a"));
    assert_eq!(s.distributions[0].1.len(), 1);
    assert_eq!(reply.commands.len(), 2);
    assert_eq!(s.pending_commands[0].1.len(), 1);
    assert!(s.pending_commands[0].1[0].activation.is_some());
    assert_eq!(reply.peers, vec![("b".to_string(), "http://b:7000".to_string())]);
    assert_eq!(reply.network_peers, vec![("net".to_string(), vec!["b".to_string()])]);
    assert_eq!(reply.connect_addr, "http://b:7000");
}

#[test]
fn heartbeat_replaces_a_wildcard_address() {
    let mut s = state();
    let reply = match heartbeat_step(&mut s, event("a", 10_000, Vec::new())) {
        Ok(r) => r,
        Err(_) => panic!("heartbeat refused"),
    };
    assert_eq!(reply.connect_addr, "http://10.0.0.9:7000");
    assert_eq!(s.nodes[0].address, "10.0.0.9:7000");
    assert_eq!(s.nodes.len(), 2);
}

#[test]
fn activation_results_are_consumed_once_and_conflicts_refused() {
    let mut s = state();
    if heartbeat_step(&mut s, event("b", 60_000, vec![result("r1", true)])).is_err() {
        panic!("matching result refused");
    }
    assert_eq!(s.activation_results.len(), 1);
    assert!(s.pending_commands[0].1.is_empty());
    if heartbeat_step(&mut s, event("b", 60_001, vec![result("r1", true)])).is_err() {
        panic!("repeated result refused");
    }
    assert!(matches!(
        heartbeat_step(&mut s, event("b", 60_002, vec![result("r1", false)])),
        Err(HeartbeatRefusal::ConflictingResult)
    ));
    assert!(matches!(
        heartbeat_step(&mut s, event("b", 60_003, vec![result("r9", true)])),
        Err(HeartbeatRefusal::UnmatchedResult)
    ));
    assert_eq!(s.nodes[0].last_heartbeat_ms, Some(60_003));
}

#[test]
fn malformed_activation_results_are_refused_after_the_heartbeat_is_recorded() {
    let mut s = state();
    let mut bad = result("r1", true);
    bad.manifest_digest = String::new();
    bad.brain_id = 0;
    bad.error = "oops".to_string();
    assert!(matches!(
        heartbeat_step(&mut s, event("b", 60_000, vec![bad])),
        Err(HeartbeatRefusal::InvalidResult)
    ));
    assert_eq!(s.nodes[1].last_heartbeat_ms, Some(60_000));
    assert_eq!(s.nodes.len(), 2);
    assert_eq!(s.pending_commands[0].1.len(), 2);
    let mut not_hex = result("r1", true);
    not_hex.manifest_digest = "g".repeat(64);
    assert!(matches!(
        heartbeat_step(&mut s, event("b", 60_001, vec![not_hex])),
        Err(HeartbeatRefusal::InvalidResult)
    ));
}

#[test]
fn results_before_a_refusal_stay_consumed() {
    let mut s = state();
    assert!(matches!(
        heartbeat_step(&mut s, event("b", 60_000, vec![result("r1", true), result("r9", true)])),
        Err(HeartbeatRefusal::UnmatchedResult)
    ));
    assert_eq!(s.activation_results.len(), 1);
    assert_eq!(s.pending_commands[0].1.len(), 1);
    assert_eq!(s.nodes.len(), 2);
}
