//! Configuration of a cluster node.

use vstd::prelude::*;

verus! {

#[derive(Debug)]
pub struct ClusterConfig {
    pub enabled: bool,
    /// The node's identifier; generated at start where it is empty.
    pub node_id: String,
    pub internal_grpc_addr: String,
    pub etcd_endpoints: Vec<String>,
    pub replication_factor: u32,
    pub min_ack_replicas: u32,
    pub virtual_nodes: u32,
    pub replica_buffer_bytes: usize,
}

impl Default for ClusterConfig {
    fn default() -> (c: Self)
        ensures
            !c.enabled,
            c.node_id@ == Seq::<char>::empty(),
            c.internal_grpc_addr@ == "0.0.0.0:4319"@,
            crate::text::views(c.etcd_endpoints@) == seq!["http://localhost:2379"@],
            c.replication_factor == 3,
            c.min_ack_replicas == 1,
            c.virtual_nodes == 150,
            c.replica_buffer_bytes == 64 * 1024 * 1024,
    {
        let mut endpoints: Vec<String> = Vec::new();
        endpoints.push("http://localhost:2379".to_string());
        assert(crate::text::views(endpoints@) =~= seq!["http://localhost:2379"@]);
        let node_id = String::new();
        assert(node_id@ =~= Seq::<char>::empty());
        ClusterConfig {
            enabled: false,
            node_id,
            internal_grpc_addr: "0.0.0.0:4319".to_string(),
            etcd_endpoints: endpoints,
            replication_factor: 3,
            min_ack_replicas: 1,
            virtual_nodes: 150,
            replica_buffer_bytes: 64 * 1024 * 1024,
        }
    }
}

} // verus!
