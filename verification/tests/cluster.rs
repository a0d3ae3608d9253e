use aarnn::cluster::{
    env_flag, grpc_max_message_bytes, command_type_from_action, control_action_from_command, default_workspace_autosave_steps,
    enqueue_pending_command, mpi_rank_from_node_id, spike_burst_timeout, tracey_status_cache_ttl,
    tracey_status_failure_backoff, tracey_status_timeout, CommandType, ControlAction, NetworkCommand,
    SpikeTransportMethod,
};
use aarnn::digest::certificate_sha256_der;
use aarnn::endpoints::{
    connect_addr_for_node, normalize_peer_address, RemotePeer, discovery_target_tokens, format_host_port, merge_orchestrator_endpoints, normalize_tracey_status_url,
    split_host_port, validate_cluster_snapshot_root,
};
use aarnn::placement::{
    build_shard_placement_movements, primary_node_for_distribution, total_neurons_from_distribution,
    LayerDistribution, LayerRange,
};
use aarnn::resources::{CpuRefreshKind, MemoryRefreshKind, RefreshKind, System};
use std::collections::BTreeMap;

fn range(layers: Vec<u32>, counts: Vec<(u32, u64)>, backup_layers: Vec<u32>) -> LayerRange {
    LayerRange {
        layers,
        layer_neuron_counts: counts,
        backup_layers,
    }
}

fn distribution(entries: Vec<(&str, LayerRange)>) -> LayerDistribution {
    let mut d = LayerDistribution::new();
    for (node, r) in entries {
        d.insert(node.to_string(), r);
    }
    d
}

#[test]
fn production_cutover_requires_a_durable_cluster_snapshot_catalogue() {
    assert!(validate_cluster_snapshot_root(Some("/var/lib/aarnn/cuts")).is_ok());
    assert!(
        validate_cluster_snapshot_root(None)
            .expect_err("production needs a snapshot catalogue")
            .contains("NM_CLUSTER_SNAPSHOT_ROOT")
    );
    assert!(
        validate_cluster_snapshot_root(Some("  "))
            .expect_err("an empty snapshot root is invalid")
            .contains("must not be empty")
    );
}

#[test]
fn network_total_only_counts_its_own_unique_layers() {
    let distribution = distribution(vec![
        ("node-a", range(vec![0, 1], vec![(0, 32), (1, 64)], Vec::new())),
        ("node-b", range(vec![1, 2], vec![(1, 64), (2, 16)], Vec::new())),
    ]);

    assert_eq!(total_neurons_from_distribution(&distribution), 112);
    assert_eq!(total_neurons_from_distribution(&LayerDistribution::new()), 0);
}

#[test]
fn placement_telemetry_distinguishes_active_and_backup_moves() {
    let previous = distribution(vec![
        ("node-a", range(vec![0], Vec::new(), vec![1])),
        ("node-b", range(vec![1], Vec::new(), vec![0])),
    ]);
    let next = distribution(vec![
        ("node-a", range(vec![1], Vec::new(), vec![0])),
        ("node-b", range(vec![0], Vec::new(), vec![1])),
    ]);
    let movements = build_shard_placement_movements(
        "brain",
        &previous,
        &next,
        false,
        "capacity rebalance",
        42,
    );
    assert_eq!(movements.len(), 4);
    assert!(movements.iter().all(|movement| movement.phase == "moving"));
    assert!(movements.iter().any(|movement| movement.role == "active"));
    assert!(movements.iter().any(|movement| movement.role == "backup"));
    assert!(
        movements
            .iter()
            .all(|movement| movement.progress_milli <= 1000)
    );
    assert!(
        movements
            .windows(2)
            .all(|pair| pair[0].shard_id <= pair[1].shard_id)
    );
}

#[test]
fn placement_telemetry_only_reports_consideration_when_automation_is_enabled() {
    let current = distribution(vec![("node-a", range(vec![0, 1], Vec::new(), vec![1]))]);
    assert!(
        build_shard_placement_movements("brain", &current, &current, false, "", 42).is_empty()
    );
    let considering = build_shard_placement_movements("brain", &current, &current, true, "", 42);
    assert_eq!(considering.len(), 3);
    assert!(
        considering
            .iter()
            .all(|movement| movement.phase == "considering")
    );
    assert!(
        considering
            .iter()
            .all(|movement| movement.updated_at_ms == 42)
    );
}

#[test]
fn orchestrator_endpoints_are_normalized_and_deduplicated_in_order() {
    let endpoints = merge_orchestrator_endpoints(&[
        "qc01:50051, http://spirit:32051",
        "http://qc01:50051;https://edge.example:443/",
    ]);

    assert_eq!(
        endpoints,
        vec![
            "http://qc01:50051",
            "http://spirit:32051",
            "https://edge.example:443",
        ]
    );
}

#[test]
fn discovery_targets_keep_broadcast_and_add_unicast_hosts() {
    let targets =
        discovery_target_tokens(Some("192.168.1.60,udp://192.168.1.62:51000 192.168.1.60"));

    assert_eq!(
        targets,
        vec![
            "255.255.255.255:50050",
            "127.0.0.1:50050",
            "192.168.1.60:50050",
            "192.168.1.62:51000",
        ]
    );
}

#[test]
fn causal_certificate_binding_is_exact_and_uses_der_sha256() {
    let certificate = b"synthetic-mtls-leaf";
    let fingerprint = certificate_sha256_der(certificate);
    let enrolled = BTreeMap::from([("node-a".to_owned(), fingerprint.clone())]);
    assert_eq!(fingerprint.len(), 64);
    assert!(
        enrolled
            .get("node-a")
            .is_some_and(|expected| expected == &fingerprint)
    );
    assert!(
        !enrolled
            .get("node-a")
            .is_some_and(|expected| expected == &certificate_sha256_der(b"other-leaf"))
    );
    assert!(!enrolled.contains_key("node-b"));
}

#[test]
fn certificate_fingerprint_is_lowercase_hex_sha256() {
    assert_eq!(
        certificate_sha256_der(b""),
        "e3b0c44298fc1c149afbf4c8996fb92427ae41e4649b934ca495991b7852b855"
    );
    assert_eq!(
        certificate_sha256_der(b"abc"),
        "ba7816bf8f01cfea414140de5dae2223b00361a396177a9cb410ff61f20015ad"
    );
}

#[test]
fn placement_movement_records_name_their_slot() {
    let previous = distribution(vec![("node-a", range(vec![3], Vec::new(), Vec::new()))]);
    let next = distribution(vec![("node-b", range(vec![3], Vec::new(), Vec::new()))]);
    let movements = build_shard_placement_movements("net", &previous, &next, false, "  ", 7);
    assert_eq!(movements.len(), 1);
    let m = &movements[0];
    assert_eq!(m.shard_id, "net:active:layer-3:replica-0");
    assert_eq!(m.source_node, "node-a");
    assert_eq!(m.destination_node, "node-b");
    assert_eq!(m.role, "active");
    assert_eq!(m.phase, "moving");
    assert_eq!(m.reason, "placement assignment changed");
    assert_eq!(m.updated_at_ms, 7);

    let added = distribution(vec![
        ("node-a", range(vec![3], Vec::new(), Vec::new())),
        ("node-c", range(vec![3], Vec::new(), Vec::new())),
    ]);
    let grown = build_shard_placement_movements("net", &previous, &added, true, "scale", 1);
    assert_eq!(grown.len(), 2);
    assert_eq!(grown[0].phase, "considering");
    assert_eq!(grown[0].destination_node, "");
    assert_eq!(grown[0].reason, "scale");
    assert_eq!(grown[1].source_node, "unassigned");
    assert_eq!(grown[1].destination_node, "node-c");
    assert_eq!(grown[1].shard_id, "net:active:layer-3:replica-1");
}

#[test]
fn placement_movements_are_bounded() {
    let mut layers = Vec::new();
    for l in 0..200u32 {
        layers.push(l);
    }
    let previous = distribution(vec![("node-a", range(layers.clone(), Vec::new(), Vec::new()))]);
    let next = distribution(vec![("node-b", range(layers, Vec::new(), Vec::new()))]);
    let movements = build_shard_placement_movements("n", &previous, &next, false, "", 0);
    assert_eq!(movements.len(), 128);
    assert_eq!(movements[127].shard_id, "n:active:layer-127:replica-0");
}

#[test]
fn network_total_counts_first_report_and_saturates() {
    let d = distribution(vec![
        ("node-a", range(vec![0], vec![(0, u64::MAX)], Vec::new())),
        ("node-b", range(vec![1], vec![(1, 5), (0, 1)], Vec::new())),
    ]);
    assert_eq!(total_neurons_from_distribution(&d), u64::MAX);
    let e = distribution(vec![
        ("node-b", range(vec![0], vec![(0, 9)], Vec::new())),
        ("node-a", range(vec![0], vec![(0, 4)], Vec::new())),
    ]);
    assert_eq!(total_neurons_from_distribution(&e), 4);
}

#[test]
fn distribution_keeps_one_range_per_node_in_id_order() {
    let mut d = LayerDistribution::new();
    assert!(d.is_empty());
    assert!(d.insert("node-b".to_string(), range(vec![1], Vec::new(), Vec::new())).is_none());
    assert!(d.insert("node-a".to_string(), range(vec![0], Vec::new(), Vec::new())).is_none());
    let replaced = d.insert("node-b".to_string(), range(vec![2], Vec::new(), Vec::new()));
    assert_eq!(replaced.expect("previous range").layers, vec![1]);
    assert_eq!(d.len(), 2);
    let ids: Vec<&str> = d.entries().iter().map(|(id, _)| id.as_str()).collect();
    assert_eq!(ids, vec!["node-a", "node-b"]);
    assert_eq!(d.entries()[1].1.layers, vec![2]);
}

#[test]
fn primary_node_runs_the_most_layers() {
    let d = distribution(vec![
        ("node-a", range(vec![2, 3], Vec::new(), Vec::new())),
        ("node-b", range(vec![0, 1], Vec::new(), Vec::new())),
        ("node-c", range(vec![4], Vec::new(), Vec::new())),
    ]);
    assert_eq!(primary_node_for_distribution(&d).as_deref(), Some("node-b"));
    let tied = distribution(vec![
        ("node-a", range(vec![0], Vec::new(), Vec::new())),
        ("node-b", range(vec![0], Vec::new(), Vec::new())),
    ]);
    assert_eq!(primary_node_for_distribution(&tied).as_deref(), Some("node-b"));
    assert_eq!(primary_node_for_distribution(&LayerDistribution::new()), None);
}

#[test]
fn control_commands_map_to_actions() {
    assert_eq!(control_action_from_command(CommandType::Start), Some(ControlAction::Start));
    assert_eq!(control_action_from_command(CommandType::Reset), Some(ControlAction::Reset));
    assert_eq!(control_action_from_command(CommandType::LoadNetwork), None);
    assert_eq!(command_type_from_action(ControlAction::New), CommandType::LoadNetwork);
    assert_eq!(command_type_from_action(ControlAction::Stop), CommandType::Stop);
}

fn command(network: &str, kind: CommandType, depth: u32) -> NetworkCommand {
    NetworkCommand {
        command_type: kind,
        network_id: network.to_string(),
        config_json: Vec::new(),
        layers: Vec::new(),
        redundant_layers: Vec::new(),
        desired_aarnn_depth: depth,
        neuron_model: String::new(),
        learning_rule: String::new(),
    }
}

#[test]
fn pending_commands_replace_same_kind_and_stay_bounded() {
    let mut queue = Vec::new();
    enqueue_pending_command(&mut queue, command("a", CommandType::Start, 1));
    enqueue_pending_command(&mut queue, command("b", CommandType::Start, 2));
    enqueue_pending_command(&mut queue, command("a", CommandType::Start, 3));
    assert_eq!(queue.len(), 2);
    assert_eq!(queue[0].network_id, "b");
    assert_eq!(queue[1].desired_aarnn_depth, 3);
    for i in 0..70u32 {
        enqueue_pending_command(&mut queue, command(&format!("n{i}"), CommandType::Stop, i));
    }
    assert_eq!(queue.len(), 64);
    assert_eq!(queue[63].network_id, "n69");
    assert_eq!(queue[0].network_id, "n6");
}

#[test]
fn mpi_ranks_are_read_after_the_last_marker() {
    assert_eq!(mpi_rank_from_node_id("node_mpi3"), Some(3));
    assert_eq!(mpi_rank_from_node_id("a_mpi1_mpi-2"), Some(-2));
    assert_eq!(mpi_rank_from_node_id("node_mpi"), None);
    assert_eq!(mpi_rank_from_node_id("node"), None);
    assert_eq!(mpi_rank_from_node_id("x_mpi+7"), Some(7));
    assert_eq!(mpi_rank_from_node_id("x_mpi2147483648"), None);
    assert_eq!(mpi_rank_from_node_id("x_mpi-2147483648"), Some(i32::MIN));
}

#[test]
fn millisecond_settings_fall_back_to_defaults() {
    assert_eq!(tracey_status_timeout(None), 80);
    assert_eq!(tracey_status_timeout(Some(" 250 ")), 250);
    assert_eq!(tracey_status_timeout(Some("0")), 80);
    assert_eq!(spike_burst_timeout(Some("abc")), 120);
    assert_eq!(tracey_status_cache_ttl(None), 1000);
    assert_eq!(tracey_status_failure_backoff(Some("15")), 15);
    assert_eq!(default_workspace_autosave_steps(), 10);
}

#[test]
fn spike_transport_names() {
    assert_eq!(SpikeTransportMethod::Mpi.as_str(), "mpi");
    assert_eq!(SpikeTransportMethod::PersistentStream.as_str(), "persistent-grpc-stream");
    assert_eq!(SpikeTransportMethod::BurstStream.as_str(), "burst-grpc-stream");
}

#[test]
fn host_ports_split_and_format() {
    assert_eq!(split_host_port("qc01:50051"), Some(("qc01".to_string(), 50051)));
    assert_eq!(split_host_port("qc01"), None);
    assert_eq!(
        split_host_port(" http://[::1]:8080/path "),
        Some(("::1".to_string(), 8080))
    );
    assert_eq!(split_host_port("host:99999"), None);
    assert_eq!(format_host_port("qc01", 50051), "qc01:50051");
    assert_eq!(format_host_port("::1", 80), "[::1]:80");
}

#[test]
fn tracey_urls_are_normalized() {
    assert_eq!(normalize_tracey_status_url("  "), None);
    assert_eq!(normalize_tracey_status_url(" Off "), None);
    assert_eq!(
        normalize_tracey_status_url("tracey:48000"),
        Some("http://tracey:48000/status".to_string())
    );
    assert_eq!(
        normalize_tracey_status_url("https://h/status/"),
        Some("https://h/status/".to_string())
    );
    assert_eq!(
        normalize_tracey_status_url("http://h//"),
        Some("http://h/status".to_string())
    );
}

#[test]
fn probe_without_system_support_reports_nothing() {
    let mut system = System::new_with_specifics(
        RefreshKind::nothing()
            .with_cpu(CpuRefreshKind::everything())
            .with_memory(MemoryRefreshKind::everything()),
    );
    system.refresh_cpu_usage();
    system.refresh_memory();
    assert_eq!(system.available_memory(), 0);
    assert_eq!(system.total_memory(), 0);
}

#[test]
fn peer_addresses_replace_wildcards_with_the_observed_address() {
    let remote = Some(RemotePeer { ip: "10.0.0.7".to_string(), is_loopback: false });
    assert_eq!(
        normalize_peer_address(" 0.0.0.0:50051 ", remote.clone()),
        ("10.0.0.7:50051".to_string(), "http://10.0.0.7:50051".to_string())
    );
    assert_eq!(
        normalize_peer_address("LocalHost:7", remote.clone()),
        ("10.0.0.7:7".to_string(), "http://10.0.0.7:7".to_string())
    );
    let loopback = Some(RemotePeer { ip: "127.0.0.1".to_string(), is_loopback: true });
    assert_eq!(
        normalize_peer_address("127.0.0.1:9", loopback),
        ("127.0.0.1:9".to_string(), "http://127.0.0.1:9".to_string())
    );
    assert_eq!(
        normalize_peer_address("node-a:9", remote),
        ("node-a:9".to_string(), "http://node-a:9".to_string())
    );
    assert_eq!(
        normalize_peer_address(" node-a ", None),
        ("node-a".to_string(), "http://node-a".to_string())
    );
    let v6 = Some(RemotePeer { ip: "fe80::1".to_string(), is_loopback: false });
    assert_eq!(
        normalize_peer_address("[::]:80", v6),
        ("[fe80::1]:80".to_string(), "http://[fe80::1]:80".to_string())
    );
}

#[test]
fn connect_addresses_prefer_known_peers() {
    assert_eq!(
        connect_addr_for_node(Some("http://peer:1"), Some("other:2")),
        Some("http://peer:1".to_string())
    );
    assert_eq!(connect_addr_for_node(None, Some(" other:2 ")), Some("http://other:2".to_string()));
    assert_eq!(connect_addr_for_node(None, Some("https://x")), Some("https://x".to_string()));
    assert_eq!(connect_addr_for_node(None, Some("   ")), None);
    assert_eq!(connect_addr_for_node(None, None), None);
}

#[test]
fn flags_and_message_bounds_are_read_leniently() {
    assert_eq!(env_flag(Some(" YES ")), Some(true));
    assert_eq!(env_flag(Some("Off")), Some(false));
    assert_eq!(env_flag(Some("maybe")), None);
    assert_eq!(env_flag(None), None);
    assert_eq!(grpc_max_message_bytes(None), 512 * 1024 * 1024);
    assert_eq!(grpc_max_message_bytes(Some("1024")), 512 * 1024 * 1024);
    assert_eq!(grpc_max_message_bytes(Some(" 8388608 ")), 8388608);
    assert_eq!(grpc_max_message_bytes(Some("x")), 512 * 1024 * 1024);
}

#[test]
fn orchestrator_endpoints_split_on_every_whitespace() {
    assert_eq!(
        merge_orchestrator_endpoints(&["a\rb\u{A0}c"]),
        vec!["http://a", "http://b", "http://c"]
    );
    assert_eq!(
        discovery_target_tokens(Some("h1\th2")),
        vec!["255.255.255.255:50050", "127.0.0.1:50050", "h1:50050", "h2:50050"]
    );
}
