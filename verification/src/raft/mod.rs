pub mod log;
pub mod state;
pub mod election;
pub mod replication;
pub mod snapshot;
