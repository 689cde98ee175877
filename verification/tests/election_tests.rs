use raftkv::config::RaftConfig;
use raftkv::raft::election::{
    handle_request_vote, handle_vote_response, random_election_timeout, start_election,
};
use raftkv::raft::log::{KvCommand, RaftLog};
use raftkv::raft::state::{RaftState, Role};
use raftkv::storage::HardState;
use std::time::Duration;

fn ids(names: &[&str]) -> Vec<String> {
    names.iter().map(|s| s.to_string()).collect()
}

#[test]
fn election_timeout_is_within_bounds() {
    let cfg = RaftConfig::default();
    for _ in 0..200 {
        let d = random_election_timeout(&cfg);
        assert!(d >= Duration::from_millis(150) && d <= Duration::from_millis(300));
    }
    let fixed = RaftConfig { election_timeout_min_ms: 77, election_timeout_max_ms: 77, ..cfg };
    assert_eq!(random_election_timeout(&fixed), Duration::from_millis(77));
}

#[test]
fn start_election_votes_for_self_in_next_term() {
    let mut log = RaftLog::new();
    log.append(1, KvCommand::Noop);
    let mut s = RaftState::new("n1".into(), ids(&["n2", "n3"]));
    let mut hard = HardState { current_term: 4, voted_for: None };
    let args = start_election(&mut s, &mut hard, &log);
    assert_eq!(s.role, Role::Candidate);
    assert_eq!(s.votes_received, 1);
    assert_eq!(hard.current_term, 5);
    assert_eq!(hard.voted_for.as_deref(), Some("n1"));
    assert_eq!(args.term, 5);
    assert_eq!(args.candidate_id, "n1");
    assert_eq!((args.last_log_index, args.last_log_term), (1, 1));
}

#[test]
fn vote_refused_for_older_term() {
    let log = RaftLog::new();
    let mut s = RaftState::new("n1".into(), ids(&["n2"]));
    let mut hard = HardState { current_term: 5, voted_for: None };
    assert_eq!(handle_request_vote(&mut s, &mut hard, &log, 4, "n2".into(), 0, 0), (5, false));
    assert!(hard.voted_for.is_none());
}

#[test]
fn one_vote_per_term() {
    let log = RaftLog::new();
    let mut s = RaftState::new("n1".into(), ids(&["n2", "n3"]));
    let mut hard = HardState { current_term: 1, voted_for: None };
    assert_eq!(handle_request_vote(&mut s, &mut hard, &log, 2, "n2".into(), 0, 0), (2, true));
    assert_eq!(hard.voted_for.as_deref(), Some("n2"));
    // Same term, other candidate: refused. Same candidate again: granted.
    assert_eq!(handle_request_vote(&mut s, &mut hard, &log, 2, "n3".into(), 9, 9), (2, false));
    assert_eq!(handle_request_vote(&mut s, &mut hard, &log, 2, "n2".into(), 0, 0), (2, true));
    // A newer term frees the vote.
    assert_eq!(handle_request_vote(&mut s, &mut hard, &log, 3, "n3".into(), 0, 0), (3, true));
}

#[test]
fn vote_requires_an_up_to_date_log() {
    let mut log = RaftLog::new();
    log.append(2, KvCommand::Noop);
    log.append(2, KvCommand::Noop);
    let mut s = RaftState::new("n1".into(), ids(&["n2"]));
    s.become_leader(2);
    let mut hard = HardState { current_term: 2, voted_for: None };
    // Newer term, but an older last log term: we step down yet refuse.
    assert_eq!(handle_request_vote(&mut s, &mut hard, &log, 3, "n2".into(), 5, 1), (3, false));
    assert_eq!(s.role, Role::Follower);
    assert!(hard.voted_for.is_none());
    // Same last term but a shorter log: refused.
    assert_eq!(handle_request_vote(&mut s, &mut hard, &log, 3, "n2".into(), 1, 2), (3, false));
    // Same last term and as long: granted.
    assert_eq!(handle_request_vote(&mut s, &mut hard, &log, 3, "n2".into(), 2, 2), (3, true));
}

#[test]
fn quorum_of_votes_makes_leader() {
    let log = RaftLog::new();
    let mut s = RaftState::new("n1".into(), ids(&["n2", "n3", "n4", "n5"]));
    let mut hard = HardState { current_term: 0, voted_for: None };
    start_election(&mut s, &mut hard, &log);
    assert!(!handle_vote_response(&mut s, &mut hard, 1, false, 0));
    assert!(!handle_vote_response(&mut s, &mut hard, 1, true, 0));
    assert_eq!(s.votes_received, 2);
    // A vote from an older term is not counted.
    assert!(!handle_vote_response(&mut s, &mut hard, 0, true, 0));
    assert_eq!(s.votes_received, 2);
    assert!(handle_vote_response(&mut s, &mut hard, 1, true, 0));
    assert_eq!(s.role, Role::Leader);
    assert_eq!(s.current_leader.as_deref(), Some("n1"));
}

#[test]
fn higher_term_in_vote_response_steps_down() {
    let log = RaftLog::new();
    let mut s = RaftState::new("n1".into(), ids(&["n2", "n3"]));
    let mut hard = HardState { current_term: 0, voted_for: None };
    start_election(&mut s, &mut hard, &log);
    assert!(!handle_vote_response(&mut s, &mut hard, 7, false, 0));
    assert_eq!(s.role, Role::Follower);
    assert_eq!(hard.current_term, 7);
    assert!(hard.voted_for.is_none());
}

#[test]
fn two_candidates_cannot_both_win_a_term() {
    // Five voters, each asked first by n1 then by n2 (or the other way round
    // for some of them), all in term 1: the granted votes never give both
    // candidates a quorum of three.
    let log = RaftLog::new();
    let mut for_a = 0;
    let mut for_b = 0;
    for v in 0..5 {
        let mut s = RaftState::new(format!("v{}", v), ids(&[]));
        let mut hard = HardState { current_term: 0, voted_for: None };
        let order = if v % 2 == 0 { ["a", "b"] } else { ["b", "a"] };
        for cand in order {
            let (_, granted) = handle_request_vote(&mut s, &mut hard, &log, 1, cand.to_string(), 0, 0);
            if granted {
                if cand == "a" { for_a += 1 } else { for_b += 1 }
            }
        }
    }
    assert_eq!(for_a + for_b, 5);
    assert!(!(for_a >= 3 && for_b >= 3));
}
