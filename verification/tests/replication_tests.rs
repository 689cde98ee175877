use raftkv::raft::log::{KvCommand, LogEntry, RaftLog};
use raftkv::raft::replication::{
    apply_entry, handle_append_entries, next_to_apply, on_append_entries_failure,
    on_append_entries_success, propose, replication_message, AppendEntriesArgs, ProposeError,
    ReplicationMessage, StateMachineOp,
};
use raftkv::raft::state::{RaftState, Role};
use raftkv::storage::HardState;

fn ids(names: &[&str]) -> Vec<String> {
    names.iter().map(|s| s.to_string()).collect()
}

fn entry(term: u64, index: u64) -> LogEntry {
    LogEntry { term, index, command: KvCommand::Noop }
}

fn args(term: u64, prev: u64, prev_term: u64, entries: Vec<LogEntry>, commit: u64) -> AppendEntriesArgs {
    AppendEntriesArgs {
        term,
        leader_id: "L".to_string(),
        prev_log_index: prev,
        prev_log_term: prev_term,
        entries,
        leader_commit: commit,
    }
}

#[test]
fn propose_only_on_leader() {
    let mut log = RaftLog::new();
    let mut s = RaftState::new("n1".into(), ids(&["n2"]));
    assert_eq!(propose(&s, &mut log, 1, KvCommand::Noop), Err(ProposeError::NotLeader));
    assert_eq!(log.last_index(), 0);
    s.become_leader(0);
    assert_eq!(propose(&s, &mut log, 1, KvCommand::Noop), Ok(1));
    assert_eq!(propose(&s, &mut log, 1, KvCommand::Noop), Ok(2));
    assert_eq!(log.term_at(2), Some(1));
}

#[test]
fn leader_sends_missing_entries_then_snapshot() {
    let mut log = RaftLog::new();
    for _ in 0..3 {
        log.append(1, KvCommand::Noop);
    }
    let mut s = RaftState::new("n1".into(), ids(&["n2"]));
    assert!(replication_message(&s, &log, 1, &"n2".to_string()).is_none());
    s.become_leader(1);
    match replication_message(&s, &log, 1, &"n2".to_string()) {
        Some(ReplicationMessage::AppendEntries(a)) => {
            assert_eq!(a.leader_id, "n1");
            assert_eq!((a.prev_log_index, a.prev_log_term), (1, 1));
            assert_eq!(a.entries.len(), 2);
            assert_eq!(a.entries[0].index, 2);
        }
        other => panic!("unexpected {:?}", other),
    }
    assert!(replication_message(&s, &log, 1, &"n9".to_string()).is_none());
    log.compact_to(2, 1);
    s.leader_state.as_mut().unwrap().record_rejection("n2", 1, 0);
    match replication_message(&s, &log, 1, &"n2".to_string()) {
        Some(ReplicationMessage::InstallSnapshot { last_included_index, last_included_term, .. }) => {
            assert_eq!((last_included_index, last_included_term), (2, 1));
        }
        other => panic!("unexpected {:?}", other),
    }
}

#[test]
fn success_responses_advance_commit() {
    let mut log = RaftLog::new();
    log.append(3, KvCommand::Noop);
    log.append(3, KvCommand::Noop);
    let mut s = RaftState::new("n1".into(), ids(&["n2", "n3"]));
    s.become_leader(2);
    assert!(on_append_entries_success(&mut s, &log, 3, "n2", 2));
    assert_eq!(s.commit_index, 2);
    assert!(!on_append_entries_success(&mut s, &log, 3, "n3", 1));
    assert_eq!(s.commit_index, 2);
}

#[test]
fn failure_responses_rewind_or_step_down() {
    let mut s = RaftState::new("n1".into(), ids(&["n2"]));
    s.become_leader(5);
    let mut hard = HardState { current_term: 2, voted_for: None };
    assert!(!on_append_entries_failure(&mut s, &mut hard, "n2", 2, 3, 1));
    assert_eq!(s.leader_state.as_ref().unwrap().next_index.get(&"n2".to_string()), Some(3));
    assert!(on_append_entries_failure(&mut s, &mut hard, "n2", 4, 0, 0));
    assert_eq!(s.role, Role::Follower);
    assert_eq!(hard.current_term, 4);
}

#[test]
fn follower_rejects_stale_leader() {
    let mut s = RaftState::new("n1".into(), ids(&["L"]));
    let mut hard = HardState { current_term: 5, voted_for: Some("x".into()) };
    let mut log = RaftLog::new();
    let r = handle_append_entries(&mut s, &mut hard, &mut log, args(4, 0, 0, vec![entry(4, 1)], 1));
    assert_eq!((r.term, r.success), (5, false));
    assert_eq!(log.last_index(), 0);
    assert!(s.current_leader.is_none());
}

#[test]
fn follower_appends_and_follows_commit() {
    let mut s = RaftState::new("n1".into(), ids(&["L"]));
    let mut hard = HardState { current_term: 1, voted_for: Some("x".into()) };
    let mut log = RaftLog::new();
    let r = handle_append_entries(
        &mut s,
        &mut hard,
        &mut log,
        args(2, 0, 0, vec![entry(1, 1), entry(2, 2)], 5),
    );
    assert!(r.success);
    assert_eq!(r.term, 2);
    assert_eq!(hard.current_term, 2);
    assert!(hard.voted_for.is_none());
    assert_eq!(s.current_leader.as_deref(), Some("L"));
    assert_eq!(log.last_index(), 2);
    // Commit follows the leader, but not beyond the last entry it sent.
    assert_eq!(s.commit_index, 2);
    // A heartbeat with an older leader commit does not move ours back.
    let r = handle_append_entries(&mut s, &mut hard, &mut log, args(2, 2, 2, vec![], 1));
    assert!(r.success);
    assert_eq!(s.commit_index, 2);
}

#[test]
fn follower_commits_only_what_the_leader_sent() {
    let mut s = RaftState::new("n1".into(), ids(&["L"]));
    let mut hard = HardState { current_term: 2, voted_for: None };
    let mut log = RaftLog::new();
    log.append(1, KvCommand::Noop);
    log.append(1, KvCommand::Noop);
    log.append(2, KvCommand::Noop);
    // The batch matches a prefix of our longer log: our entry 3 is not the
    // leader's, so commit stops at the last index the leader sent.
    let r = handle_append_entries(&mut s, &mut hard, &mut log, args(3, 1, 1, vec![entry(1, 2)], 3));
    assert!(r.success);
    assert_eq!(log.last_index(), 3);
    assert_eq!(log.term_at(3), Some(2));
    assert_eq!(s.commit_index, 2);
    // A heartbeat bounds commit by the leader's previous index.
    let r = handle_append_entries(&mut s, &mut hard, &mut log, args(3, 2, 1, vec![], 3));
    assert!(r.success);
    assert_eq!(s.commit_index, 2);
    // Once the leader sends entry 3, commit can reach it.
    let r = handle_append_entries(&mut s, &mut hard, &mut log, args(3, 2, 1, vec![entry(3, 3)], 3));
    assert!(r.success);
    assert_eq!(log.term_at(3), Some(3));
    assert_eq!(s.commit_index, 3);
}

#[test]
fn follower_rejects_with_conflict_hints() {
    let mut s = RaftState::new("n1".into(), ids(&["L"]));
    let mut hard = HardState { current_term: 2, voted_for: None };
    let mut log = RaftLog::new();
    log.append(1, KvCommand::Noop);
    log.append(1, KvCommand::Noop);
    // Our log is too short.
    let r = handle_append_entries(&mut s, &mut hard, &mut log, args(2, 5, 2, vec![], 0));
    assert_eq!((r.success, r.conflict_index, r.conflict_term), (false, 3, 0));
    // Our entry at the previous index has another term.
    let r = handle_append_entries(&mut s, &mut hard, &mut log, args(2, 2, 2, vec![], 0));
    assert_eq!((r.success, r.conflict_index, r.conflict_term), (false, 2, 1));
    // A batch whose indices do not follow the previous index.
    let r = handle_append_entries(&mut s, &mut hard, &mut log, args(2, 2, 1, vec![entry(2, 4)], 0));
    assert_eq!((r.success, r.conflict_index, r.conflict_term), (false, 0, 0));
    assert_eq!(log.last_index(), 2);
}

#[test]
fn committed_entries_are_applied_in_order() {
    let mut log = RaftLog::new();
    log.append(1, KvCommand::Put { key: "k".into(), value: b"v".to_vec() });
    log.append(1, KvCommand::Delete { key: "k".into() });
    log.append(1, KvCommand::Noop);
    let mut s = RaftState::new("n1".into(), ids(&[]));
    assert!(next_to_apply(&s, &log).is_none());
    s.commit_index = 3;
    let e = next_to_apply(&s, &log).unwrap();
    assert_eq!(e.index, 1);
    match apply_entry(e) {
        StateMachineOp::Put { key, value } => {
            assert_eq!(key, b"k".to_vec());
            assert_eq!(value, b"v".to_vec());
        }
        other => panic!("unexpected {:?}", other),
    }
    s.last_applied = 1;
    match apply_entry(next_to_apply(&s, &log).unwrap()) {
        StateMachineOp::Delete { key } => assert_eq!(key, b"k".to_vec()),
        other => panic!("unexpected {:?}", other),
    }
    s.last_applied = 2;
    assert!(matches!(apply_entry(next_to_apply(&s, &log).unwrap()), StateMachineOp::Nothing));
    s.last_applied = 3;
    assert!(next_to_apply(&s, &log).is_none());
}

#[test]
fn successful_append_entries_keeps_entries_up_to_prev() {
    let mut s = RaftState::new("n1".into(), ids(&["L"]));
    let mut hard = HardState { current_term: 3, voted_for: None };
    let mut log = RaftLog::new();
    log.append(1, KvCommand::Put { key: "a".into(), value: b"1".to_vec() });
    log.append(2, KvCommand::Noop);
    log.append(2, KvCommand::Noop);
    let r = handle_append_entries(&mut s, &mut hard, &mut log, args(3, 2, 2, vec![entry(3, 3)], 0));
    assert!(r.success);
    assert_eq!(log.term_at(1), Some(1));
    assert_eq!(log.term_at(2), Some(2));
    assert_eq!(log.term_at(3), Some(3));
    assert!(matches!(log.get(1).unwrap().command, KvCommand::Put { .. }));
}
