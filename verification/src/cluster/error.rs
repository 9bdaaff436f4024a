//! Errors of the cluster layer.

use vstd::prelude::*;

verus! {

/// What can go wrong in the cluster layer. Errors of etcd and of the file system are
/// carried as their messages.
#[derive(Debug)]
pub enum ClusterError {
    Etcd(String),
    NodeNotFound(String),
    EmptyRing,
    ReplicationFailed { node: String, reason: String },
    NoPrimary(String),
    Io(String),
    Serialisation(String),
}

/// The text of an error.
pub open spec fn cluster_error_text(e: ClusterError) -> Seq<char> {
    match e {
        ClusterError::Etcd(m) => "etcd error: "@ + m@,
        ClusterError::NodeNotFound(n) => "node "@ + n@ + " not found in ring"@,
        ClusterError::EmptyRing => "ring is empty \u{2014} no nodes registered"@,
        ClusterError::ReplicationFailed { node, reason } => "replication failed to "@ + node@ + ": "@
            + reason@,
        ClusterError::NoPrimary(s) => "shard "@ + s@ + " has no primary"@,
        ClusterError::Io(m) => "io error: "@ + m@,
        ClusterError::Serialisation(m) => "serialisation error: "@ + m@,
    }
}

impl ClusterError {
    /// The error as a text for people.
    pub fn message(&self) -> (out: String)
        ensures
            out@ == cluster_error_text(*self),
    {
        let mut out = String::new();
        match self {
            ClusterError::Etcd(m) => {
                out.append("etcd error: ");
                out.append(m.as_str());
            },
            ClusterError::NodeNotFound(n) => {
                out.append("node ");
                out.append(n.as_str());
                out.append(" not found in ring");
            },
            ClusterError::EmptyRing => {
                out.append("ring is empty \u{2014} no nodes registered");
            },
            ClusterError::ReplicationFailed { node, reason } => {
                out.append("replication failed to ");
                out.append(node.as_str());
                out.append(": ");
                out.append(reason.as_str());
            },
            ClusterError::NoPrimary(s) => {
                out.append("shard ");
                out.append(s.as_str());
                out.append(" has no primary");
            },
            ClusterError::Io(m) => {
                out.append("io error: ");
                out.append(m.as_str());
            },
            ClusterError::Serialisation(m) => {
                out.append("serialisation error: ");
                out.append(m.as_str());
            },
        }
        assert(out@ =~= cluster_error_text(*self));
        out
    }
}

} // verus!
