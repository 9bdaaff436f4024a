use infralens::cluster::membership::{ClusterView, NodeMeta};
use infralens::columnar::batch::Batch;
use infralens::common::schema::log_schema;
use infralens::operator::crd::{
    default_image, default_l0_trigger, default_memtable_size, default_partition_hours,
    default_storage_class, default_storage_size, ClusterConfig, ClusterPhase,
    InfraLensClusterSpec, ResourceSpec,
};
use infralens::operator::reconciler::{
    error_policy, field_manager, reconcile, Step, REQUEUE_SECS,
};
use infralens::rpc::scatter_gather::{
    gather, holds_batches, take_reply, ScatterGather, ShardOutcome, ShardQueryResponse,
};
use infralens::rpc::server::{
    get_node_info, query_shard, replica_entry, replicate_ack, sync_shard, ReplicateRequest,
};

fn node(id: &str, addr: &str) -> NodeMeta {
    NodeMeta {
        node_id: id.to_string(),
        internal_grpc_addr: addr.to_string(),
        version: String::new(),
        started_at_ns: 0,
    }
}

fn batch() -> Batch {
    Batch::new_empty(log_schema())
}

#[test]
fn queries_go_to_known_nodes() {
    let view = ClusterView::load(vec![node("a", "h1:1"), node("b", "h2:2")], 10);
    let s = ScatterGather::new(view);
    let targets = vec!["b".to_string(), "x".to_string(), "a".to_string()];
    let calls =
        s.execute("q1".to_string(), vec![1, 2], 10, 20, "logs".to_string(), &targets);
    assert_eq!(calls.len(), 2);
    assert_eq!(calls[0].node_id, "b");
    assert_eq!(calls[0].uri, "http://h2:2");
    assert_eq!(calls[1].uri, "http://h1:1");
    let r = &calls[1].request;
    assert_eq!(r.query_id, "q1");
    assert_eq!(r.plan_bytes, vec![1, 2]);
    assert_eq!((r.start_ns, r.end_ns, r.max_rows), (10, 20, 0));
    assert_eq!(r.signal, "logs");
}

#[test]
fn answers_are_merged() {
    let out = gather(vec![
        ShardOutcome::Answered("a".to_string(), vec![batch(), batch()]),
        ShardOutcome::Failed("b".to_string(), "down".to_string()),
        ShardOutcome::Lost,
        ShardOutcome::Answered("c".to_string(), vec![batch()]),
    ]);
    assert_eq!(out.batches.len(), 3);
    assert_eq!(out.error_nodes, vec!["b".to_string()]);
}

fn reply(bytes: usize, is_last: bool, error: &str) -> ShardQueryResponse {
    ShardQueryResponse {
        record_batch_ipc: vec![0; bytes],
        is_last,
        rows_returned: 0,
        error: error.to_string(),
    }
}

#[test]
fn parts_of_an_answer() {
    let mut batches = Vec::new();
    assert!(holds_batches(&reply(4, false, "")));
    assert!(!holds_batches(&reply(0, false, "")));
    assert!(!holds_batches(&reply(4, false, "bad")));
    assert_eq!(take_reply(&mut batches, reply(4, false, ""), Ok(vec![batch()])), Ok(false));
    assert_eq!(batches.len(), 1);
    assert_eq!(take_reply(&mut batches, reply(0, true, ""), Ok(vec![batch()])), Ok(true));
    assert_eq!(batches.len(), 1);
    let failed = take_reply(&mut batches, reply(4, true, "bad"), Ok(vec![batch()]));
    assert_eq!(failed, Err("bad".to_string()));
    let unread = take_reply(&mut batches, reply(4, true, ""), Err("no schema".to_string()));
    assert_eq!(unread, Err("no schema".to_string()));
    assert_eq!(batches.len(), 1);
}

#[test]
fn node_answers() {
    let q = query_shard();
    assert!(q.is_last && q.record_batch_ipc.is_empty() && q.error.is_empty());
    assert_eq!(q.rows_returned, 0);
    let s = sync_shard();
    assert!(s.is_last_chunk && s.is_last_file && s.data.is_empty() && s.filename.is_empty());
    let ack = replicate_ack(7, false);
    assert_eq!((ack.sequence, ack.accepted), (7, false));
    let info = get_node_info("n", "0.1.0");
    assert_eq!((info.node_id.as_str(), info.version.as_str()), ("n", "0.1.0"));
    assert!(info.ready);
    let e = replica_entry(ReplicateRequest {
        sequence: 3,
        partition_key: "p".to_string(),
        signal: "log".to_string(),
        wal_entry: vec![1],
    });
    assert_eq!((e.sequence, e.wal_bytes), (3, vec![1]));
}

fn spec() -> InfraLensClusterSpec {
    InfraLensClusterSpec {
        replicas: 3,
        storage_class: default_storage_class(),
        storage_size: default_storage_size(),
        image: default_image(),
        etcd_endpoints: vec!["http://e1:2379".to_string(), "http://e2:2379".to_string()],
        config: ClusterConfig {
            memtable_size_bytes: default_memtable_size(),
            partition_hours: default_partition_hours(),
            l0_compaction_trigger: default_l0_trigger(),
        },
        resources: ResourceSpec::default(),
    }
}

#[test]
fn cluster_objects() {
    let steps = reconcile("demo", Some("obs".to_string()), &spec(), Some(4));
    match &steps[0] {
        Step::ConfigMap(p) => {
            assert_eq!(p.meta.name, "demo-config");
            assert_eq!(p.meta.namespace, "obs");
            let get = |k: &str| p.data.iter().find(|d| d.0 == k).unwrap().1.clone();
            assert_eq!(
                get("INFRALENS__CLUSTER__ETCD_ENDPOINTS"),
                "http://e1:2379,http://e2:2379"
            );
            assert_eq!(get("INFRALENS__STORAGE__MEMTABLE_SIZE_BYTES"), "67108864");
            assert_eq!(get("INFRALENS__STORAGE__PARTITION_HOURS"), "1");
        }
        _ => panic!("config map"),
    }
    match &steps[1] {
        Step::Service(p) => {
            assert_eq!(p.cluster_ip, "None");
            assert_eq!(p.ports.iter().map(|x| x.port).collect::<Vec<_>>(), vec![4317, 4318, 9090, 5317]);
            assert_eq!(p.selector, p.meta.labels);
            assert_eq!(p.selector[1].1, "demo");
        }
        _ => panic!("service"),
    }
    match &steps[2] {
        Step::StatefulSet(p) => {
            assert_eq!(p.replicas, 3);
            assert_eq!(p.service_name, "demo");
            assert_eq!(p.container.image, "ghcr.io/infralens/infralens-server:latest");
            assert_eq!(p.container.config_map, "demo-config");
            assert_eq!(p.container.mounts[0].1, "/data");
            assert_eq!(p.claim.storage_class, "standard");
            assert_eq!(p.claim.size, "50Gi");
            assert_eq!(p.claim.access_mode, "ReadWriteOnce");
        }
        _ => panic!("stateful set"),
    }
    match &steps[3] {
        Step::Status(s) => {
            assert_eq!(s.phase, ClusterPhase::Running);
            assert_eq!(s.ready_replicas, 3);
            assert_eq!(s.observed_generation, 4);
            assert!(s.message.is_none());
        }
        _ => panic!("status"),
    }
}

#[test]
fn cluster_edge_cases() {
    let mut many = spec();
    many.replicas = u32::MAX;
    many.etcd_endpoints = Vec::new();
    let steps = reconcile("demo", None, &many, None);
    match (&steps[0], &steps[2], &steps[3]) {
        (Step::ConfigMap(c), Step::StatefulSet(p), Step::Status(s)) => {
            assert_eq!(c.meta.namespace, "");
            assert_eq!(c.data[0].1, "");
            assert_eq!(p.replicas, -1);
            assert_eq!(s.observed_generation, 0);
        }
        _ => panic!("steps"),
    }
    assert_eq!(REQUEUE_SECS, 30);
    assert_eq!(error_policy(), 10);
    assert_eq!(field_manager(), "infralens-operator");
    let d = ClusterConfig::default();
    assert_eq!((d.memtable_size_bytes, d.partition_hours, d.l0_compaction_trigger), (0, 0, 0));
}
