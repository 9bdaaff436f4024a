use infralens::cluster::config::ClusterConfig;
use infralens::cluster::error::ClusterError;
use infralens::cluster::membership::{
    node_id_of_key, node_key, refresh_interval_secs, registration, ClusterMembership, ClusterView,
    MembershipEvent, NodeMeta,
};
use infralens::cluster::replication::{
    apply_replica_entry, replica_failure, ReplicationEngine, ReplicationEntry, SendOutcome,
    WAL_ENTRY_LOG, WAL_ENTRY_METRIC, WAL_ENTRY_SPAN,
};
use infralens::cluster::ring::{ConsistentHashRing, ShardId};
use infralens::cluster::router::ShardRouter;
use infralens::common::model::SignalType;
use infralens::sha256::short_digest;
use std::hash::{Hash, Hasher};

#[test]
fn single_node_always_returns_itself() {
    let mut ring = ConsistentHashRing::new(150);
    ring.add_node("node-a");
    let shard = ShardId::for_key("logs|2024010100|{env=prod}");
    assert_eq!(ring.primary_for(shard).unwrap(), "node-a");
}

#[test]
fn uniform_distribution() {
    let mut ring = ConsistentHashRing::new(150);
    for i in 0..3 {
        ring.add_node(&format!("node-{i}"));
    }

    let mut counts = std::collections::HashMap::<String, u32>::new();
    for i in 0..10_000u64 {
        let shard = ShardId::for_key(&format!("key-{i}"));
        let node = ring.primary_for(shard).unwrap().to_string();
        *counts.entry(node).or_insert(0) += 1;
    }
    // Each node should handle roughly 33 % ± 10 %.
    for (node, count) in &counts {
        let pct = *count as f64 / 10_000.0;
        assert!(pct > 0.23 && pct < 0.43, "node {node} got {pct:.1}");
    }
}

#[test]
fn replica_nodes_distinct() {
    let mut ring = ConsistentHashRing::new(150);
    for i in 0..5 {
        ring.add_node(&format!("node-{i}"));
    }
    let shard = ShardId::for_key("test-key");
    let replicas = ring.replica_nodes(shard, 3).unwrap();
    assert_eq!(replicas.len(), 3);
    let unique: std::collections::HashSet<_> = replicas.iter().collect();
    assert_eq!(unique.len(), 3);
}

#[test]
fn remove_node_excludes_it() {
    let mut ring = ConsistentHashRing::new(150);
    ring.add_node("node-a");
    ring.add_node("node-b");
    ring.remove_node("node-a");

    for i in 0..1000u64 {
        let shard = ShardId::for_key(&format!("k{i}"));
        assert_eq!(ring.primary_for(shard).unwrap(), "node-b");
    }
}

#[test]
fn empty_ring_has_no_owner() {
    let ring = ConsistentHashRing::new(150);
    assert!(ring.is_empty());
    assert_eq!(ring.node_count(), 0);
    let e = ring.primary_for(ShardId(7)).unwrap_err();
    assert!(matches!(e, ClusterError::EmptyRing));
    assert!(ring.replica_nodes(ShardId(7), 2).is_err());
}

#[test]
fn as_many_holders_as_asked_for() {
    let mut ring = ConsistentHashRing::new(20);
    for n in ["a", "b", "c"] {
        ring.add_node(n);
    }
    let shard = ShardId::for_key("k");
    assert!(ring.replica_nodes(shard, 0).unwrap().is_empty());
    for count in 0..5 {
        let fewer = ring.replica_nodes(shard, count).unwrap();
        let more = ring.replica_nodes(shard, count + 1).unwrap();
        assert_eq!(fewer.len(), count.min(ring.node_count()));
        assert_eq!(fewer[..], more[..fewer.len()]);
    }
}

#[test]
fn positions_are_sha256_digests() {
    // One position per node: the first eight bytes of the digest of "a#0" and of "b#0".
    let mut ring = ConsistentHashRing::new(1);
    ring.add_node("a");
    ring.add_node("b");
    let (a, b) = (short_digest(b"a#0"), short_digest(b"b#0"));
    assert_eq!(ring.primary_for(ShardId(a)).unwrap(), "a");
    assert_eq!(ring.primary_for(ShardId(b)).unwrap(), "b");
    let (low, high) = (a.min(b), a.max(b));
    let owner = if low == a { "b" } else { "a" };
    assert_eq!(ring.primary_for(ShardId(low + 1)).unwrap(), owner);
    assert_ne!(ring.primary_for(ShardId(high.wrapping_add(1))).unwrap(), owner);
}

#[test]
fn adding_and_removing_gives_the_ring_back() {
    let mut ring = ConsistentHashRing::new(30);
    ring.add_node("a");
    ring.add_node("b");
    let old = ring.duplicate();
    ring.add_node("c");
    ring.remove_node("c");
    assert_eq!(ring.version(), old.version() + 2);
    for i in 0..500 {
        let shard = ShardId::for_key(&format!("{i}"));
        assert_eq!(ring.primary_for(shard).unwrap(), old.primary_for(shard).unwrap());
        assert_eq!(ring.replica_nodes(shard, 2).unwrap(), old.replica_nodes(shard, 2).unwrap());
    }
}

#[test]
fn shard_of_a_key_is_the_std_hash() {
    let mut h = std::collections::hash_map::DefaultHasher::new();
    b"some key"[..].hash(&mut h);
    assert_eq!(ShardId::for_key("some key").0, h.finish());
    assert_eq!(ShardId(255).to_text(), "00000000000000ff");
}

#[test]
fn ring_versions_count_changes() {
    let mut ring = ConsistentHashRing::new(10);
    assert_eq!(ring.version(), 0);
    ring.add_node("a");
    ring.add_node("b");
    ring.remove_node("a");
    assert_eq!(ring.version(), 3);
    assert_eq!(ring.node_count(), 1);
}

#[test]
fn adding_a_node_moves_shards_only_to_it() {
    let mut before = ConsistentHashRing::new(50);
    for n in ["a", "b", "c"] {
        before.add_node(n);
    }
    let mut after = before.duplicate();
    after.add_node("d");
    let mut moved = 0;
    for i in 0..2000 {
        let shard = ShardId::for_key(&format!("s{i}"));
        let old = before.primary_for(shard).unwrap();
        let new = after.primary_for(shard).unwrap();
        if old != new {
            assert_eq!(new, "d");
            moved += 1;
        }
    }
    assert!(moved > 0);
}

#[test]
fn removing_a_node_keeps_other_owners() {
    let mut before = ConsistentHashRing::new(50);
    for n in ["a", "b", "c"] {
        before.add_node(n);
    }
    let mut after = before.duplicate();
    after.remove_node("b");
    for i in 0..2000 {
        let shard = ShardId::for_key(&format!("s{i}"));
        let old = before.primary_for(shard).unwrap();
        if old != "b" {
            assert_eq!(after.primary_for(shard).unwrap(), old);
        }
    }
}

fn meta(id: &str, addr: &str) -> NodeMeta {
    NodeMeta {
        node_id: id.to_string(),
        internal_grpc_addr: addr.to_string(),
        version: "0.1.0".to_string(),
        started_at_ns: 1,
    }
}

fn view() -> ClusterView {
    ClusterView::load(vec![meta("a", "10.0.0.1:4319"), meta("b", "10.0.0.2:4319")], 150)
}

#[test]
fn membership_follows_events() {
    let mut v = view();
    assert_eq!(v.ring.version(), 2);
    v.apply(MembershipEvent::Joined(meta("c", "10.0.0.3:4319")));
    v.apply(MembershipEvent::Left(node_key("a")));
    v.apply(MembershipEvent::Joined(meta("b", "10.0.0.9:4319")));
    let m = ClusterMembership { config: ClusterConfig::default(), view: v };
    assert!(!m.is_alive("a"));
    assert!(m.is_alive("b"));
    assert!(m.is_alive("c"));
    assert_eq!(m.grpc_addr("b"), Some("10.0.0.9:4319".to_string()));
    assert_eq!(m.grpc_addr("a"), None);
    assert_eq!(m.view().nodes.len(), 2);
    assert_eq!(m.view().ring.node_count(), 2);
    for i in 0..100 {
        assert_ne!(m.view.ring.primary_for(ShardId::for_key(&format!("{i}"))).unwrap(), "a");
    }
}

#[test]
fn node_keys() {
    assert_eq!(node_key("n1"), "/infralens/nodes/n1");
    assert_eq!(node_id_of_key("/infralens/nodes/n1"), "n1");
    assert_eq!(node_id_of_key("n1"), "n1");
    assert_eq!(node_id_of_key("/infralens/nodes//infralens/nodes/n1"), "n1");
    assert_eq!(node_id_of_key("/infralens/nodes/"), "");
    assert_eq!(refresh_interval_secs(), 5);
}

#[test]
fn node_registration() {
    let mut config = ClusterConfig::default();
    config.node_id = "n7".to_string();
    let (key, meta) = registration(&config, "1.2.3", 99);
    assert_eq!(key, "/infralens/nodes/n7");
    assert_eq!(meta.node_id, "n7");
    assert_eq!(meta.internal_grpc_addr, "0.0.0.0:4319");
    assert_eq!(meta.version, "1.2.3");
    assert_eq!(meta.started_at_ns, 99);
}

#[test]
fn cluster_defaults() {
    let c = ClusterConfig::default();
    assert!(!c.enabled);
    assert_eq!(c.node_id, "");
    assert_eq!(c.etcd_endpoints, vec!["http://localhost:2379".to_string()]);
    assert_eq!(c.replication_factor, 3);
    assert_eq!(c.min_ack_replicas, 1);
    assert_eq!(c.virtual_nodes, 150);
    assert_eq!(c.replica_buffer_bytes, 64 * 1024 * 1024);
}

#[test]
fn routing_names_owner_and_copies() {
    let mut v = view();
    v.apply(MembershipEvent::Joined(meta("c", "10.0.0.3:4319")));
    let router = ShardRouter::new("a".to_string(), 2);
    for i in 0..50 {
        let key = format!("series {i}");
        let d = router.route(&v, &key);
        let holders = v.ring.replica_nodes(ShardId::for_key(&key), 2).unwrap();
        assert_eq!(d.primary, holders[0]);
        assert_eq!(d.replicas, vec![holders[1].to_string()]);
        assert_eq!(d.is_local, d.primary == "a");
    }
    let alone = ShardRouter::new("a".to_string(), 1).route(&v, "x");
    assert!(alone.replicas.is_empty());
}

#[test]
fn routing_without_nodes_is_local() {
    let v = ClusterView::load(Vec::new(), 150);
    let d = ShardRouter::new("me".to_string(), 3).route(&v, "x");
    assert_eq!(d.primary, "me");
    assert!(d.is_local);
    assert!(d.replicas.is_empty());
}

#[test]
fn series_keys() {
    assert_eq!(ShardRouter::log_series_key("2024010100", -9), "logs|2024010100|sev=-9");
    assert_eq!(ShardRouter::metric_series_key("p", "cpu"), "metrics|p|cpu");
    assert_eq!(ShardRouter::span_series_key("p", "api"), "traces|p|api");
}

#[test]
fn replication_steps() {
    let nodes = vec![meta("b", "10.0.0.2:4319")];
    let mut config = ClusterConfig::default();
    config.min_ack_replicas = 1;
    let mut engine = ReplicationEngine::new(config);
    let first = engine.replicate("2024010100", "log", vec![1, 2]);
    let second = engine.replicate("2024010100", "log", vec![3]);
    assert_eq!((first.sequence, second.sequence), (0, 1));
    assert_eq!(first.wal_bytes, vec![1, 2]);
    assert_eq!(first.partition_key, "2024010100");
    assert_eq!(first.signal, "log");

    assert!(engine.get_or_create_sender(&nodes, "unknown").is_none());
    let d = engine.get_or_create_sender(&nodes, "b").unwrap();
    assert_eq!(d.addr, "10.0.0.2:4319");
    assert!(d.connect);
    assert!(!engine.get_or_create_sender(&nodes, "b").unwrap().connect);

    assert_eq!(engine.record("b", SendOutcome::Queued, 0), 1);
    assert_eq!(engine.record("b", SendOutcome::Full, 1), 1);
    assert_eq!(engine.record("b", SendOutcome::Closed, 1), 1);
    assert!(engine.get_or_create_sender(&nodes, "b").unwrap().connect);
    assert!(engine.is_degraded(0));
    assert!(!engine.is_degraded(1));
}

#[test]
fn replication_numbers_wrap() {
    let mut engine = ReplicationEngine::new(ClusterConfig::default());
    engine.sequence = u64::MAX;
    assert_eq!(engine.replicate("p", "log", Vec::new()).sequence, u64::MAX);
    assert_eq!(engine.replicate("p", "log", Vec::new()).sequence, 0);
}

#[test]
fn replica_entries() {
    let entry = |bytes: Vec<u8>| ReplicationEntry {
        sequence: 1,
        partition_key: "p".to_string(),
        signal: "log".to_string(),
        wal_bytes: bytes,
    };
    assert!(apply_replica_entry(&entry(vec![])).is_none());
    assert!(apply_replica_entry(&entry(vec![9, 1])).is_none());
    let (signal, data) = apply_replica_entry(&entry(vec![WAL_ENTRY_LOG, 5, 6])).unwrap();
    assert_eq!(signal, SignalType::Log);
    assert_eq!(data, vec![5, 6]);
    assert_eq!(apply_replica_entry(&entry(vec![WAL_ENTRY_METRIC])).unwrap().0, SignalType::Metric);
    assert_eq!(apply_replica_entry(&entry(vec![WAL_ENTRY_SPAN])).unwrap().0, SignalType::Span);
    assert_eq!(
        replica_failure("disk full".to_string()).message(),
        "replication failed to local: disk full"
    );
}

#[test]
fn cluster_error_messages() {
    assert_eq!(ClusterError::Etcd("down".to_string()).message(), "etcd error: down");
    assert_eq!(
        ClusterError::NodeNotFound("n".to_string()).message(),
        "node n not found in ring"
    );
    assert_eq!(ClusterError::EmptyRing.message(), "ring is empty \u{2014} no nodes registered");
    assert_eq!(ClusterError::NoPrimary("s".to_string()).message(), "shard s has no primary");
    assert_eq!(ClusterError::Io("x".to_string()).message(), "io error: x");
    assert_eq!(
        ClusterError::Serialisation("x".to_string()).message(),
        "serialisation error: x"
    );
}
