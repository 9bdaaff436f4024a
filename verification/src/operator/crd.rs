//! The cluster resource: what is asked for, and what has been observed.

use vstd::prelude::*;

verus! {

/// What a cluster resource asks for.
#[derive(Debug)]
pub struct InfraLensClusterSpec {
    /// The number of server pods.
    pub replicas: u32,
    /// The storage class of the volumes.
    pub storage_class: String,
    /// The size of the volume of each pod, such as "100Gi".
    pub storage_size: String,
    /// The container image to run.
    pub image: String,
    /// The etcd endpoints for cluster membership.
    pub etcd_endpoints: Vec<String>,
    pub config: ClusterConfig,
    pub resources: ResourceSpec,
}

/// Settings of the servers.
#[derive(Debug)]
pub struct ClusterConfig {
    pub memtable_size_bytes: u64,
    pub partition_hours: u64,
    pub l0_compaction_trigger: usize,
}

impl Default for ClusterConfig {
    /// All zero: what a resource without settings has.
    fn default() -> (c: Self)
        ensures
            c.memtable_size_bytes == 0,
            c.partition_hours == 0,
            c.l0_compaction_trigger == 0,
    {
        ClusterConfig { memtable_size_bytes: 0, partition_hours: 0, l0_compaction_trigger: 0 }
    }
}

/// Resources of a pod.
#[derive(Debug)]
pub struct ResourceSpec {
    pub requests: ResourceQuantity,
    pub limits: ResourceQuantity,
}

impl Default for ResourceSpec {
    fn default() -> (r: Self)
        ensures
            r.requests.cpu@ == "1"@,
            r.requests.memory@ == "2Gi"@,
            r.limits.cpu@ == "1"@,
            r.limits.memory@ == "2Gi"@,
    {
        ResourceSpec { requests: ResourceQuantity::default(), limits: ResourceQuantity::default() }
    }
}

/// An amount of processors and of memory.
#[derive(Debug)]
pub struct ResourceQuantity {
    pub cpu: String,
    pub memory: String,
}

impl Default for ResourceQuantity {
    fn default() -> (r: Self)
        ensures
            r.cpu@ == "1"@,
            r.memory@ == "2Gi"@,
    {
        ResourceQuantity { cpu: "1".to_string(), memory: "2Gi".to_string() }
    }
}

/// What has been observed of a cluster.
#[derive(Debug)]
pub struct InfraLensClusterStatus {
    pub phase: ClusterPhase,
    pub ready_replicas: u32,
    pub observed_generation: i64,
    pub message: Option<String>,
}

/// How far a cluster has come.
#[derive(Clone, Copy, PartialEq, Eq, Structural, Debug)]
pub enum ClusterPhase {
    Pending,
    Provisioning,
    Running,
    Degraded,
    Failed,
}

/// The storage class where none is given.
pub fn default_storage_class() -> (out: String)
    ensures
        out@ == "standard"@,
{
    "standard".to_string()
}

/// The size of a volume where none is given.
pub fn default_storage_size() -> (out: String)
    ensures
        out@ == "50Gi"@,
{
    "50Gi".to_string()
}

/// The image where none is given.
pub fn default_image() -> (out: String)
    ensures
        out@ == "ghcr.io/infralens/infralens-server:latest"@,
{
    "ghcr.io/infralens/infralens-server:latest".to_string()
}

/// The size of a memtable where settings do not give it.
pub fn default_memtable_size() -> (out: u64)
    ensures
        out == 64 * 1024 * 1024,
{
    64 * 1024 * 1024
}

/// The length of a partition where settings do not give it.
pub fn default_partition_hours() -> (out: u64)
    ensures
        out == 1,
{
    1
}

/// The number of tables that are merged where settings do not give it.
pub fn default_l0_trigger() -> (out: usize)
    ensures
        out == 4,
{
    4
}

} // verus!
