//! What a broker is told at its start.

use vstd::prelude::*;

verus! {

/// The settings of a broker.
#[derive(Debug, Clone)]
pub struct BrokerConfig {
    /// The address to listen on.
    pub host: String,
    pub port: i32,
    pub broker_id: i32,
    /// The directories that hold the logs.
    pub log_dirs: Vec<String>,
    /// The number of partitions of a topic that does not say.
    pub num_partitions: i32,
    pub default_replication_factor: i16,
    pub cluster_id: String,
    /// The size in bytes at which a segment is full.
    pub log_segment_bytes: i64,
    /// The age in milliseconds at which a segment is full.
    pub log_roll_ms: i64,
    /// The bytes of log between two entries of the offset index.
    pub index_interval_bytes: i32,
    /// How many hours a segment is kept.
    pub log_retention_hours: i64,
    /// How many bytes of a partition are kept; negative for no limit.
    pub log_retention_bytes: i64,
    /// `delete` or `compact`.
    pub cleanup_policy: String,
    pub log_flush_interval_messages: i64,
    pub log_flush_interval_ms: i64,
    pub min_insync_replicas: i32,
    pub default_replication_ack: i16,
    pub group_initial_rebalance_delay_ms: i32,
    /// Whether the broker runs alone, without Raft.
    pub single_node: bool,
    /// The addresses of the other nodes.
    pub raft_peers: Vec<String>,
}

impl Default for BrokerConfig {
    fn default() -> (r: Self)
        ensures
            r.host@ == "127.0.0.1"@,
            r.port == 9092,
            r.broker_id == 0,
            r.log_dirs@.len() == 1,
            r.log_dirs@[0]@ == "/tmp/rivine-logs"@,
            r.num_partitions == 1,
            r.default_replication_factor == 1,
            r.cluster_id@ == "rivine-cluster"@,
            r.log_segment_bytes == 1024 * 1024 * 1024,
            r.log_roll_ms == 7 * 24 * 3600 * 1000,
            r.index_interval_bytes == 4096,
            r.log_retention_hours == 168,
            r.log_retention_bytes == -1,
            r.cleanup_policy@ == "delete"@,
            r.log_flush_interval_messages == 10000,
            r.log_flush_interval_ms == 1000,
            r.min_insync_replicas == 1,
            r.default_replication_ack == 1,
            r.group_initial_rebalance_delay_ms == 3000,
            r.single_node,
            r.raft_peers@.len() == 0,
    {
        let mut log_dirs: Vec<String> = Vec::new();
        log_dirs.push("/tmp/rivine-logs".to_string());
        BrokerConfig {
            host: "127.0.0.1".to_string(),
            port: 9092,
            broker_id: 0,
            log_dirs,
            num_partitions: 1,
            default_replication_factor: 1,
            cluster_id: "rivine-cluster".to_string(),
            log_segment_bytes: 1024 * 1024 * 1024,
            log_roll_ms: 7 * 24 * 3600 * 1000,
            index_interval_bytes: 4096,
            log_retention_hours: 168,
            log_retention_bytes: -1,
            cleanup_policy: "delete".to_string(),
            log_flush_interval_messages: 10000,
            log_flush_interval_ms: 1000,
            min_insync_replicas: 1,
            default_replication_ack: 1,
            group_initial_rebalance_delay_ms: 3000,
            single_node: true,
            raft_peers: Vec::new(),
        }
    }
}

impl BrokerConfig {
    /// The first of the log directories.
    pub fn primary_log_dir(&self) -> (r: String)
        requires
            self.log_dirs@.len() > 0,
        ensures
            r@ == self.log_dirs@[0]@,
    {
        self.log_dirs[0].clone()
    }
}

} // verus!
