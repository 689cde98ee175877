use raftkv::config::RaftConfig;
use raftkv::raft::log::{KvCommand, RaftLog};
use raftkv::raft::snapshot::{handle_install_snapshot, should_snapshot, snapshot_point};
use raftkv::raft::state::{RaftState, Role};
use raftkv::storage::HardState;

#[test]
fn snapshot_is_due_past_the_threshold() {
    let cfg = RaftConfig { snapshot_threshold: 2, ..RaftConfig::default() };
    let mut log = RaftLog::new();
    log.append(1, KvCommand::Noop);
    log.append(1, KvCommand::Noop);
    assert!(!should_snapshot(&log, &cfg));
    log.append(1, KvCommand::Noop);
    assert!(should_snapshot(&log, &cfg));
    log.compact_to(2, 1);
    assert!(!should_snapshot(&log, &cfg));
}

#[test]
fn snapshot_covers_applied_entries() {
    let mut log = RaftLog::new();
    log.append(1, KvCommand::Noop);
    log.append(2, KvCommand::Noop);
    let mut s = RaftState::new("n1".into(), vec![]);
    assert_eq!(snapshot_point(&s, &log), Some((0, 0)));
    s.last_applied = 2;
    assert_eq!(snapshot_point(&s, &log), Some((2, 2)));
    s.last_applied = 5;
    assert_eq!(snapshot_point(&s, &log), None);
}

#[test]
fn install_snapshot_from_leader() {
    let mut log = RaftLog::new();
    log.append(1, KvCommand::Noop);
    log.append(1, KvCommand::Noop);
    let mut s = RaftState::new("n1".into(), vec!["L".into()]);
    s.commit_index = 1;
    let mut hard = HardState { current_term: 3, voted_for: None };
    // Stale leader: ignored.
    assert_eq!(handle_install_snapshot(&mut s, &mut hard, &mut log, 2, "L".into(), 9, 2), (3, false));
    // Not past our commit index: not installed, but we follow the leader.
    assert_eq!(handle_install_snapshot(&mut s, &mut hard, &mut log, 3, "L".into(), 1, 1), (3, false));
    assert_eq!(s.role, Role::Follower);
    assert_eq!(s.current_leader.as_deref(), Some("L"));
    // Installed: the log is compacted and the indices move up.
    assert_eq!(handle_install_snapshot(&mut s, &mut hard, &mut log, 4, "L".into(), 9, 3), (4, true));
    assert_eq!(hard.current_term, 4);
    assert_eq!((s.commit_index, s.last_applied), (9, 9));
    assert_eq!((log.last_index(), log.last_term()), (9, 3));
}
