use raftkv::config::{
    ClusterConfig, Config, ConfigError, NodeConfig, PeerConfig, RaftConfig, RedisProxyConfig,
};

fn config(id: &str, raft: RaftConfig) -> Config {
    Config {
        node: NodeConfig { id: id.to_string(), address: "0.0.0.0:7001".into(), data_dir: "/tmp/d".into() },
        cluster: ClusterConfig { peers: vec![PeerConfig { id: "n2".into(), address: "n2:7001".into() }] },
        raft,
        redis_proxy: RedisProxyConfig { listen: "0.0.0.0:6379".into() },
    }
}

#[test]
fn default_raft_config() {
    let r = RaftConfig::default();
    assert_eq!(r.heartbeat_interval_ms, 50);
    assert_eq!(r.election_timeout_min_ms, 150);
    assert_eq!(r.election_timeout_max_ms, 300);
    assert_eq!(r.snapshot_threshold, 1000);
    assert_eq!(config("n1", r).validate(), Ok(()));
}

#[test]
fn validate_rejects_each_bad_setting() {
    let mut r = RaftConfig::default();
    r.heartbeat_interval_ms = 150;
    assert_eq!(config("n1", r).validate(), Err(ConfigError::HeartbeatNotBelowElectionTimeout));
    let mut r = RaftConfig::default();
    r.election_timeout_max_ms = 150;
    assert_eq!(config("n1", r).validate(), Err(ConfigError::ElectionTimeoutRangeEmpty));
    assert_eq!(config("", RaftConfig::default()).validate(), Err(ConfigError::EmptyNodeId));
    assert_eq!(
        ConfigError::EmptyNodeId.message(),
        "node.id must not be empty"
    );
}
