use raftkv::raft::log::{KvCommand, LogEntry, RaftLog};

fn entry(term: u64, index: u64) -> LogEntry {
    LogEntry { term, index, command: KvCommand::Noop }
}

fn put(key: &str, value: &[u8]) -> KvCommand {
    KvCommand::Put { key: key.to_string(), value: value.to_vec() }
}

#[test]
fn new_log_is_empty() {
    let log = RaftLog::new();
    assert_eq!(log.last_index(), 0);
    assert_eq!(log.last_term(), 0);
    assert_eq!(log.term_at(0), Some(0));
    assert!(log.get(1).is_none());
    assert!(log.entries_from(0).is_empty());
}

#[test]
fn append_assigns_consecutive_indices() {
    let mut log = RaftLog::new();
    let a = log.append(1, put("a", b"1"));
    let b = log.append(1, KvCommand::Delete { key: "a".to_string() });
    let c = log.append(2, KvCommand::Noop);
    assert_eq!((a.index, b.index, c.index), (1, 2, 3));
    assert_eq!(log.last_index(), 3);
    assert_eq!(log.last_term(), 2);
    assert_eq!(log.term_at(2), Some(1));
    assert_eq!(log.term_at(4), None);
    match &log.get(1).unwrap().command {
        KvCommand::Put { key, value } => {
            assert_eq!(key, "a");
            assert_eq!(value, b"1");
        }
        other => panic!("unexpected {:?}", other),
    }
    let tail = log.entries_from(1);
    assert_eq!(tail.len(), 2);
    assert_eq!(tail[0].index, 2);
    assert!(log.entries_from(3).is_empty());
}

#[test]
fn append_entries_skips_matching_and_appends_new() {
    let mut log = RaftLog::new();
    log.append(1, KvCommand::Noop);
    log.append(1, KvCommand::Noop);
    let last = log.append_entries(vec![entry(1, 2), entry(1, 3), entry(2, 4)]);
    assert_eq!(last, 4);
    assert_eq!(log.term_at(3), Some(1));
    assert_eq!(log.term_at(4), Some(2));
}

#[test]
fn append_entries_truncates_on_conflict() {
    let mut log = RaftLog::new();
    log.append(1, KvCommand::Noop);
    log.append(1, KvCommand::Noop);
    log.append(1, KvCommand::Noop);
    log.append(1, KvCommand::Noop);
    // Entry 3 conflicts in term: 3 and 4 are replaced by the batch.
    let last = log.append_entries(vec![entry(1, 2), entry(3, 3)]);
    assert_eq!(last, 3);
    assert_eq!(log.term_at(3), Some(3));
    assert!(log.get(4).is_none());
}

#[test]
fn append_entries_keeps_entries_past_a_matching_batch() {
    let mut log = RaftLog::new();
    for _ in 0..4 {
        log.append(1, KvCommand::Noop);
    }
    // The result names the last entry the leader sent, not our last entry.
    let last = log.append_entries(vec![entry(1, 1), entry(1, 2)]);
    assert_eq!(last, 2);
    assert_eq!(log.last_index(), 4);
}

#[test]
fn append_entries_is_idempotent() {
    let mut log = RaftLog::new();
    log.append(1, KvCommand::Noop);
    log.append(1, KvCommand::Noop);
    let batch = vec![entry(1, 2), entry(2, 3), entry(2, 4)];
    let first = log.append_entries(batch.clone());
    let terms: Vec<Option<u64>> = (0..6).map(|i| log.term_at(i)).collect();
    let second = log.append_entries(batch);
    let again: Vec<Option<u64>> = (0..6).map(|i| log.term_at(i)).collect();
    assert_eq!(first, second);
    assert_eq!(terms, again);
}

#[test]
fn compaction_drops_prefix_and_keeps_later_entries() {
    let mut log = RaftLog::new();
    for t in 1..=5 {
        log.append(t, KvCommand::Noop);
    }
    log.compact_to(3, 3);
    assert_eq!(log.snapshot_index(), 3);
    assert_eq!(log.snapshot_term(), 3);
    assert_eq!(log.term_at(3), Some(3));
    assert!(log.get(3).is_none());
    assert_eq!(log.get(4).unwrap().term, 4);
    assert_eq!(log.last_index(), 5);
    assert_eq!(log.entries_from(0).len(), 2);
    // Entries at or below the snapshot are skipped by append_entries.
    assert_eq!(log.append_entries(vec![entry(9, 2), entry(3, 3), entry(4, 4)]), 4);
    assert_eq!(log.last_index(), 5);
    // An empty batch names no entry: the log's last index is returned.
    assert_eq!(log.append_entries(vec![]), 5);
    // Compacting past the end empties the log.
    log.compact_to(10, 7);
    assert_eq!(log.last_index(), 10);
    assert_eq!(log.last_term(), 7);
}

#[test]
fn from_storage_restores_appended_entries() {
    let mut original = RaftLog::new();
    let a = original.append(1, put("a", b"1"));
    let b = original.append(1, KvCommand::Delete { key: "a".to_string() });
    let c = original.append(3, KvCommand::Noop);
    let log = RaftLog::from_storage(0, 0, vec![a, b, c]);
    assert_eq!(log.snapshot_index(), 0);
    assert_eq!(log.last_index(), 3);
    assert_eq!(log.last_term(), 3);
    assert_eq!(log.get(1).unwrap().term, 1);
    assert!(matches!(log.get(2).unwrap().command, KvCommand::Delete { .. }));
    assert_eq!(log.get(3).unwrap().index, 3);
}

#[test]
fn from_storage_starts_after_the_snapshot_and_stops_at_a_gap() {
    let log = RaftLog::from_storage(5, 2, vec![entry(2, 6), entry(3, 7), entry(3, 9)]);
    assert_eq!(log.snapshot_index(), 5);
    assert_eq!(log.snapshot_term(), 2);
    assert_eq!(log.last_index(), 7);
    assert_eq!(log.term_at(5), Some(2));
    assert_eq!(log.term_at(7), Some(3));
    assert!(log.get(9).is_none());
    let empty = RaftLog::from_storage(0, 0, vec![]);
    assert_eq!(empty.last_index(), 0);
    let stale = RaftLog::from_storage(4, 1, vec![entry(1, 3), entry(1, 4)]);
    assert_eq!(stale.last_index(), 4);
    assert_eq!(stale.last_term(), 1);
}
