//! Configuration of a server.

use vstd::prelude::*;

verus! {

/// Top-level configuration.
#[derive(Debug, Clone)]
pub struct InfraLensConfig {
    pub server: ServerConfig,
    pub storage: StorageConfig,
    pub ingest: IngestConfig,
    pub telemetry: TelemetryConfig,
}

#[derive(Debug, Clone)]
pub struct ServerConfig {
    /// gRPC listen address (OTLP/gRPC).
    pub grpc_addr: String,
    /// HTTP listen address (OTLP/HTTP and management).
    pub http_addr: String,
    /// Prometheus metrics scrape endpoint.
    pub metrics_addr: String,
}

#[derive(Debug, Clone)]
pub struct StorageConfig {
    /// Base directory for all partition data.
    pub data_dir: String,
    /// Size of the active MemTable, in bytes, at which it is frozen.
    pub memtable_size_bytes: usize,
    /// How many level-0 SSTables trigger a compaction run.
    pub l0_compaction_trigger: usize,
    /// How often, in seconds, the compaction worker polls for work.
    pub compaction_interval_secs: u64,
    /// Partition granularity in hours.
    pub partition_hours: u64,
    /// Parquet row-group size in number of rows.
    pub parquet_row_group_size: usize,
    /// fsync interval for log writes in milliseconds (0: sync every write).
    pub wal_sync_interval_ms: u64,
}

#[derive(Debug, Clone)]
pub struct IngestConfig {
    /// Depth of the channel between ingest handlers and storage writer.
    pub buffer_depth: usize,
    /// Most records per write batch that the processor assembles.
    pub max_batch_records: usize,
}

#[derive(Debug, Clone)]
pub struct TelemetryConfig {
    /// Log level filter, such as `info` or `infralens=trace`.
    pub log_level: String,
    /// Emit logs as JSON.
    pub json_logs: bool,
}

impl Default for InfraLensConfig {
    fn default() -> (c: Self)
        ensures
            c.server.grpc_addr@ == "0.0.0.0:4317"@,
            c.server.http_addr@ == "0.0.0.0:4318"@,
            c.server.metrics_addr@ == "0.0.0.0:9090"@,
            c.storage.data_dir@ == "./data"@,
            c.storage.memtable_size_bytes == 64 * 1024 * 1024,
            c.storage.l0_compaction_trigger == 4,
            c.storage.compaction_interval_secs == 30,
            c.storage.partition_hours == 1,
            c.storage.parquet_row_group_size == 1_000_000,
            c.storage.wal_sync_interval_ms == 100,
            c.ingest.buffer_depth == 4096,
            c.ingest.max_batch_records == 1000,
            c.telemetry.log_level@ == "info"@,
            c.telemetry.json_logs,
    {
        InfraLensConfig {
            server: ServerConfig {
                grpc_addr: "0.0.0.0:4317".to_string(),
                http_addr: "0.0.0.0:4318".to_string(),
                metrics_addr: "0.0.0.0:9090".to_string(),
            },
            storage: StorageConfig {
                data_dir: "./data".to_string(),
                memtable_size_bytes: 64 * 1024 * 1024,
                l0_compaction_trigger: 4,
                compaction_interval_secs: 30,
                partition_hours: 1,
                parquet_row_group_size: 1_000_000,
                wal_sync_interval_ms: 100,
            },
            ingest: IngestConfig { buffer_depth: 4096, max_batch_records: 1000 },
            telemetry: TelemetryConfig { log_level: "info".to_string(), json_logs: true },
        }
    }
}

/// The configuration files of an environment, without extension, in the order in
/// which they are laid over each other: the shared one, then the environment's.
pub fn config_files(env: &str) -> (out: Vec<String>)
    ensures
        crate::text::views(out@) == seq!["config/default"@, "config/"@ + env@],
{
    let mut named = "config/".to_string();
    named.append(env);
    let mut out: Vec<String> = Vec::new();
    out.push("config/default".to_string());
    out.push(named);
    assert(crate::text::views(out@) =~= seq!["config/default"@, "config/"@ + env@]);
    out
}

} // verus!
