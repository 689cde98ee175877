# raftkv

A Raft-replicated key-value store with a Redis (RESP) front end.

`src/` is the verified core (Verus): the replicated log and its AppendEntries
reconciliation and compaction, the volatile Raft state with role transitions
and quorum-based commit advancement, vote granting and tallying, follower and
leader replication decisions, snapshot bookkeeping, single-server membership
changes, configuration checks, the byte encodings of log keys and persistent
metadata, and the RESP command parser, dispatcher and replies.

`app/` is the program around it: command line, TOML config loading, the
RocksDB storage engine, the node's timers and background loops, the Redis TCP
proxy and the consistent-hash router. The program has no gRPC services and
sends no RPCs to peers, so as it stands it runs a single node; replication
between nodes exists as the library's decisions (what a leader sends, how a
follower merges it, how replies move commit), not as network traffic.
