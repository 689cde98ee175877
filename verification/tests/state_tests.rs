use raftkv::raft::log::{KvCommand, RaftLog};
use raftkv::raft::state::{LeaderState, RaftState, Role};

fn ids(names: &[&str]) -> Vec<String> {
    names.iter().map(|s| s.to_string()).collect()
}

#[test]
fn role_display_names() {
    assert_eq!(Role::Follower.display_name(), "Follower");
    assert_eq!(Role::Candidate.display_name(), "Candidate");
    assert_eq!(Role::Leader.display_name(), "Leader");
}

#[test]
fn new_state_is_follower() {
    let s = RaftState::new("n1".to_string(), ids(&["n2", "n3"]));
    assert_eq!(s.role, Role::Follower);
    assert_eq!(s.commit_index, 0);
    assert_eq!(s.last_applied, 0);
    assert!(s.leader_state.is_none());
    assert!(s.current_leader.is_none());
    assert_eq!(s.votes_received, 0);
}

#[test]
fn quorum_is_a_strict_majority() {
    assert_eq!(RaftState::new("n1".into(), ids(&[])).quorum(), 1);
    assert_eq!(RaftState::new("n1".into(), ids(&["a"])).quorum(), 2);
    assert_eq!(RaftState::new("n1".into(), ids(&["a", "b"])).quorum(), 2);
    assert_eq!(RaftState::new("n1".into(), ids(&["a", "b", "c"])).quorum(), 3);
    assert_eq!(RaftState::new("n1".into(), ids(&["a", "b", "c", "d"])).quorum(), 3);
}

#[test]
fn role_transitions() {
    let mut s = RaftState::new("n1".to_string(), ids(&["n2", "n3"]));
    s.become_candidate();
    assert_eq!(s.role, Role::Candidate);
    assert_eq!(s.votes_received, 1);
    assert!(s.current_leader.is_none());
    s.become_leader(7);
    assert_eq!(s.role, Role::Leader);
    assert_eq!(s.current_leader.as_deref(), Some("n1"));
    let ls = s.leader_state.as_ref().unwrap();
    assert_eq!(ls.next_index.get(&"n2".to_string()), Some(8));
    assert_eq!(ls.match_index.get(&"n3".to_string()), Some(0));
    assert_eq!(ls.next_index.get(&"n9".to_string()), None);
    s.become_follower(Some("n2".to_string()));
    assert_eq!(s.role, Role::Follower);
    assert!(s.leader_state.is_none());
    assert_eq!(s.votes_received, 0);
    assert_eq!(s.current_leader.as_deref(), Some("n2"));
}

#[test]
fn leader_state_tracks_each_peer_once() {
    let ls = LeaderState::new(&ids(&["a", "b", "a"]), 4);
    assert_eq!(ls.next_index.values(), vec![5, 5]);
    assert_eq!(ls.match_index.values(), vec![0, 0]);
}

#[test]
fn record_replication_updates_progress() {
    let mut ls = LeaderState::new(&ids(&["a", "b"]), 10);
    ls.record_replication("a", 6);
    assert_eq!(ls.match_index.get(&"a".to_string()), Some(6));
    assert_eq!(ls.next_index.get(&"a".to_string()), Some(7));
    // A stale response never lowers the match index, but sets next_index.
    ls.record_replication("a", 3);
    assert_eq!(ls.match_index.get(&"a".to_string()), Some(6));
    assert_eq!(ls.next_index.get(&"a".to_string()), Some(4));
    // Unknown peers are ignored.
    ls.record_replication("zz", 3);
    assert_eq!(ls.match_index.get(&"zz".to_string()), None);
}

#[test]
fn record_replication_leaves_other_peers_alone() {
    let mut ls = LeaderState::new(&ids(&["b", "c"]), 5);
    ls.record_replication("b", 4);
    ls.record_replication("b", 2);
    assert_eq!(ls.match_index.get(&"b".to_string()), Some(4));
    assert_eq!(ls.match_index.get(&"c".to_string()), Some(0));
    assert_eq!(ls.next_index.get(&"b".to_string()), Some(3));
    assert_eq!(ls.next_index.get(&"c".to_string()), Some(6));
    ls.record_rejection("c", 0, 0);
    assert_eq!(ls.next_index.get(&"b".to_string()), Some(3));
    assert_eq!(ls.next_index.get(&"c".to_string()), Some(5));
}

#[test]
fn record_rejection_rewinds_next_index() {
    let mut ls = LeaderState::new(&ids(&["a"]), 10);
    ls.record_rejection("a", 0, 0);
    assert_eq!(ls.next_index.get(&"a".to_string()), Some(10));
    ls.record_rejection("a", 4, 2);
    assert_eq!(ls.next_index.get(&"a".to_string()), Some(4));
    // A hint that is not lower than one step back is not used.
    ls.record_rejection("a", 9, 0);
    assert_eq!(ls.next_index.get(&"a".to_string()), Some(3));
    let mut ls = LeaderState::new(&ids(&["a"]), 0);
    ls.record_rejection("a", 0, 0);
    assert_eq!(ls.next_index.get(&"a".to_string()), Some(1));
}

#[test]
fn commit_advances_to_quorum_index_in_current_term() {
    let mut log = RaftLog::new();
    log.append(1, KvCommand::Noop);
    log.append(2, KvCommand::Noop);
    log.append(2, KvCommand::Noop);
    let mut s = RaftState::new("n1".into(), ids(&["n2", "n3"]));
    s.become_leader(log.last_index());
    // Nothing replicated anywhere else yet: only our own log counts.
    assert_eq!(s.maybe_advance_commit(2, &log), 0);
    s.leader_state.as_mut().unwrap().record_replication("n2", 2);
    assert_eq!(s.maybe_advance_commit(2, &log), 2);
    // Entries of an earlier term are not committed directly.
    let mut t = RaftState::new("n1".into(), ids(&["n2", "n3"]));
    t.become_leader(log.last_index());
    t.leader_state.as_mut().unwrap().record_replication("n2", 1);
    assert_eq!(t.maybe_advance_commit(2, &log), 0);
    // The commit index never goes back, and the state is left unchanged.
    s.commit_index = 3;
    assert_eq!(s.maybe_advance_commit(2, &log), 3);
    assert_eq!(s.commit_index, 3);
    // A follower does not advance its commit index this way.
    let mut f = RaftState::new("n1".into(), ids(&["n2"]));
    assert_eq!(f.maybe_advance_commit(2, &log), 0);
}
