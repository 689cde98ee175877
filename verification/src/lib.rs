//! A Raft-replicated key-value store: the verified core.
//!
//! The modules hold the replicated log, the volatile Raft state and its role
//! transitions, the election and replication decisions, snapshot bookkeeping,
//! single-server membership changes, configuration checks, the on-disk
//! encodings of the persistent Raft metadata, and the Redis (RESP) front end.
pub mod config;
pub mod membership;
pub mod raft;
pub mod redis_proxy;
pub mod server;
pub mod storage;
