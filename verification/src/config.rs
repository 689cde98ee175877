//! Cluster configuration and its sanity checks.
//!
//! The configuration is read from a TOML file with `[node]`, `[cluster]`,
//! `[raft]` and `[redis_proxy]` tables; reading and parsing it is the
//! program's job, checking it is this module's.
use vstd::prelude::*;

verus! {

/// Top-level configuration.
#[derive(Debug, Clone)]
pub struct Config {
    pub node: NodeConfig,
    pub cluster: ClusterConfig,
    pub raft: RaftConfig,
    pub redis_proxy: RedisProxyConfig,
}

#[derive(Debug, Clone)]
pub struct NodeConfig {
    /// Unique string identifier for this node (e.g. "node1").
    pub id: String,
    /// gRPC listen address, e.g. "0.0.0.0:7001".
    pub address: String,
    /// Directory for the database and snapshots.
    pub data_dir: String,
}

#[derive(Debug, Clone)]
pub struct PeerConfig {
    pub id: String,
    pub address: String,
}

#[derive(Debug, Clone)]
pub struct ClusterConfig {
    /// All OTHER nodes in the cluster (not including self).
    pub peers: Vec<PeerConfig>,
}

#[derive(Debug, Clone, Copy)]
pub struct RaftConfig {
    /// How often the leader sends heartbeats (ms).
    pub heartbeat_interval_ms: u64,
    /// Lower bound of the randomised election timeout (ms).
    /// Must be > heartbeat_interval_ms.
    pub election_timeout_min_ms: u64,
    /// Upper bound of the randomised election timeout (ms).
    pub election_timeout_max_ms: u64,
    /// Take a snapshot after this many committed log entries accumulate.
    pub snapshot_threshold: u64,
}

#[derive(Debug, Clone)]
pub struct RedisProxyConfig {
    /// TCP address for the Redis RESP proxy (e.g. "0.0.0.0:6379").
    pub listen: String,
}

/// Why a configuration was rejected.
#[derive(Debug, Clone, Copy, PartialEq, Eq, Structural)]
pub enum ConfigError {
    /// heartbeat_interval_ms must be less than election_timeout_min_ms
    HeartbeatNotBelowElectionTimeout,
    /// election_timeout_min_ms must be less than election_timeout_max_ms
    ElectionTimeoutRangeEmpty,
    /// node.id must not be empty
    EmptyNodeId,
}

impl ConfigError {
    /// The message that explains the rejection.
    pub fn message(&self) -> (r: String)
        ensures
            r@ == match self {
                ConfigError::HeartbeatNotBelowElectionTimeout =>
                    "heartbeat_interval_ms must be less than election_timeout_min_ms"@,
                ConfigError::ElectionTimeoutRangeEmpty =>
                    "election_timeout_min_ms must be less than election_timeout_max_ms"@,
                ConfigError::EmptyNodeId => "node.id must not be empty"@,
            },
    {
        match self {
            ConfigError::HeartbeatNotBelowElectionTimeout => String::from_str(
                "heartbeat_interval_ms must be less than election_timeout_min_ms",
            ),
            ConfigError::ElectionTimeoutRangeEmpty => String::from_str(
                "election_timeout_min_ms must be less than election_timeout_max_ms",
            ),
            ConfigError::EmptyNodeId => String::from_str("node.id must not be empty"),
        }
    }
}

impl Config {
    /// The checks, in the order they are made: the heartbeat interval is below
    /// the minimum election timeout, the election timeout range is not empty,
    /// and the node has an ID.
    pub open spec fn check(&self) -> Result<(), ConfigError> {
        if !(self.raft.heartbeat_interval_ms < self.raft.election_timeout_min_ms) {
            Err(ConfigError::HeartbeatNotBelowElectionTimeout)
        } else if !(self.raft.election_timeout_min_ms < self.raft.election_timeout_max_ms) {
            Err(ConfigError::ElectionTimeoutRangeEmpty)
        } else if self.node.id@.len() == 0 {
            Err(ConfigError::EmptyNodeId)
        } else {
            Ok(())
        }
    }

    /// Basic sanity checks on the loaded config.
    pub fn validate(&self) -> (r: Result<(), ConfigError>)
        ensures
            r == self.check(),
    {
        if !(self.raft.heartbeat_interval_ms < self.raft.election_timeout_min_ms) {
            return Err(ConfigError::HeartbeatNotBelowElectionTimeout);
        }
        if !(self.raft.election_timeout_min_ms < self.raft.election_timeout_max_ms) {
            return Err(ConfigError::ElectionTimeoutRangeEmpty);
        }
        if self.node.id.as_str().is_empty() {
            return Err(ConfigError::EmptyNodeId);
        }
        Ok(())
    }
}

impl Default for RaftConfig {
    fn default() -> (r: RaftConfig)
        ensures
            r.heartbeat_interval_ms == 50,
            r.election_timeout_min_ms == 150,
            r.election_timeout_max_ms == 300,
            r.snapshot_threshold == 1000,
    {
        RaftConfig {
            heartbeat_interval_ms: 50,
            election_timeout_min_ms: 150,
            election_timeout_max_ms: 300,
            snapshot_threshold: 1000,
        }
    }
}

} // verus!
