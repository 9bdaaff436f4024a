//! What a node answers to the other nodes.

use crate::cluster::replication::ReplicationEntry;
use crate::rpc::scatter_gather::ShardQueryResponse;
use vstd::prelude::*;

verus! {

/// An entry as the owner of a shard sends it.
#[derive(Debug)]
pub struct ReplicateRequest {
    pub sequence: u64,
    pub partition_key: String,
    pub signal: String,
    pub wal_entry: Vec<u8>,
}

/// The answer to an entry.
#[derive(Debug)]
pub struct ReplicateAck {
    pub sequence: u64,
    pub accepted: bool,
    pub error: String,
}

/// A part of a file of a shard.
#[derive(Debug)]
pub struct SyncShardChunk {
    pub filename: String,
    pub data: Vec<u8>,
    pub is_last_chunk: bool,
    pub is_last_file: bool,
}

/// Figures about a node. The rate is a double by its bits.
#[derive(Debug)]
pub struct NodeStats {
    pub memtable_bytes: u64,
    pub sstable_count: u64,
    pub ingested_total: u64,
    pub ingest_rate_per_s: u64,
}

/// What a node says of itself.
#[derive(Debug)]
pub struct NodeInfo {
    pub node_id: String,
    pub version: String,
    pub primary_shards: Vec<String>,
    pub replica_shards: Vec<String>,
    pub ring_version: u64,
    pub ready: bool,
    pub stats: NodeStats,
}

/// The answer to a query of a shard: no rows, and nothing to follow.
pub fn query_shard() -> (out: ShardQueryResponse)
    ensures
        out.record_batch_ipc@.len() == 0,
        out.is_last,
        out.rows_returned == 0,
        out.error@.len() == 0,
{
    ShardQueryResponse {
        record_batch_ipc: Vec::new(),
        is_last: true,
        rows_returned: 0,
        error: String::new(),
    }
}

/// The entry of a request.
pub fn replica_entry(request: ReplicateRequest) -> (out: ReplicationEntry)
    ensures
        out.sequence == request.sequence,
        out.partition_key == request.partition_key,
        out.signal == request.signal,
        out.wal_bytes == request.wal_entry,
{
    ReplicationEntry {
        sequence: request.sequence,
        partition_key: request.partition_key,
        signal: request.signal,
        wal_bytes: request.wal_entry,
    }
}

/// The answer to an entry that was written, or not.
pub fn replicate_ack(sequence: u64, accepted: bool) -> (out: ReplicateAck)
    ensures
        out.sequence == sequence,
        out.accepted == accepted,
        out.error@.len() == 0,
{
    ReplicateAck { sequence, accepted, error: String::new() }
}

/// The answer to a request for a whole shard: the end of the last file.
pub fn sync_shard() -> (out: SyncShardChunk)
    ensures
        out.filename@.len() == 0,
        out.data@.len() == 0,
        out.is_last_chunk,
        out.is_last_file,
{
    SyncShardChunk {
        filename: String::new(),
        data: Vec::new(),
        is_last_chunk: true,
        is_last_file: true,
    }
}

/// What a node says of itself.
pub fn get_node_info(node_id: &str, version: &str) -> (out: NodeInfo)
    ensures
        out.node_id@ == node_id@,
        out.version@ == version@,
        out.primary_shards@.len() == 0,
        out.replica_shards@.len() == 0,
        out.ring_version == 0,
        out.ready,
        out.stats == (NodeStats {
            memtable_bytes: 0,
            sstable_count: 0,
            ingested_total: 0,
            ingest_rate_per_s: 0,
        }),
{
    NodeInfo {
        node_id: node_id.to_string(),
        version: version.to_string(),
        primary_shards: Vec::new(),
        replica_shards: Vec::new(),
        ring_version: 0,
        ready: true,
        stats: NodeStats {
            memtable_bytes: 0,
            sstable_count: 0,
            ingested_total: 0,
            ingest_rate_per_s: 0,
        },
    }
}

} // verus!
