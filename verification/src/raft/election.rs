//! Leader election: the randomised timeout, starting an election, granting
//! votes, and counting the votes received.
//!
//! A follower whose election timer fires becomes a candidate, increments its
//! term and votes for itself, then asks every peer for a vote. A majority of
//! granted votes makes it leader; any reply carrying a higher term sends it
//! back to follower.
use crate::config::RaftConfig;
use crate::raft::log::RaftLog;
use crate::raft::state::{RaftState, Role, lemma_quorums_intersect, quorum_size};
use crate::storage::{HardState, HardStateView};
use rand::Rng;
use std::time::Duration;
use vstd::prelude::*;

verus! {

/// The duration `Duration::from_millis(ms)` returns.
pub uninterp spec fn duration_of_millis(ms: u64) -> Duration;

/// `Duration::from_millis`.
///
/// Trusted: the result is named as a function of the argument alone.
#[verifier::external_body]
fn millis_to_duration(ms: u64) -> (d: Duration)
    ensures
        d == duration_of_millis(ms),
{
    Duration::from_millis(ms)
}

/// `rand::thread_rng().gen_range(min..=max)`: a random number in `[min, max]`.
///
/// Trusted: rand documents that the inclusive range is sampled, and that it
/// panics when the range is empty (excluded here by `requires`). Which number
/// comes out is left open.
#[verifier::external_body]
fn random_in_range(min: u64, max: u64) -> (r: u64)
    requires
        min <= max,
    ensures
        min <= r <= max,
{
    rand::thread_rng().gen_range(min..=max)
}

/// Draw a random election timeout between min and max (inclusive).
pub fn random_election_timeout(cfg: &RaftConfig) -> (d: Duration)
    requires
        cfg.election_timeout_min_ms <= cfg.election_timeout_max_ms,
    ensures
        exists|ms: u64|
            cfg.election_timeout_min_ms <= ms <= cfg.election_timeout_max_ms && d
                == duration_of_millis(ms),
{
    let ms = random_in_range(cfg.election_timeout_min_ms, cfg.election_timeout_max_ms);
    millis_to_duration(ms)
}

/// The arguments of a RequestVote RPC.
#[derive(Debug, Clone)]
pub struct RequestVoteArgs {
    pub term: u64,
    pub candidate_id: String,
    pub last_log_index: u64,
    pub last_log_term: u64,
}

/// Begin an election: become a candidate, move to the next term voting for
/// ourselves (the caller persists this hard state before sending), and build
/// the RequestVote arguments from our last log entry.
pub fn start_election(state: &mut RaftState, hard: &mut HardState, log: &RaftLog) -> (r:
    RequestVoteArgs)
    requires
        old(hard).current_term < u64::MAX,
        log.wf(),
    ensures
        final(state).role == Role::Candidate,
        final(state).votes_received == 1,
        final(state).current_leader is None,
        final(state).leader_state == old(state).leader_state,
        final(state).node_id == old(state).node_id,
        final(state).peer_ids == old(state).peer_ids,
        final(state).commit_index == old(state).commit_index,
        final(state).last_applied == old(state).last_applied,
        final(hard)@ == (HardStateView {
            current_term: (old(hard).current_term + 1) as u64,
            voted_for: Some(old(state).node_id@),
        }),
        r.term == final(hard).current_term,
        r.candidate_id@ == old(state).node_id@,
        r.last_log_index == log@.last_index(),
        r.last_log_term == log@.last_term(),
{
    state.become_candidate();
    hard.current_term = hard.current_term + 1;
    hard.voted_for = Some(state.node_id.clone());
    RequestVoteArgs {
        term: hard.current_term,
        candidate_id: state.node_id.clone(),
        last_log_index: log.last_index(),
        last_log_term: log.last_term(),
    }
}

/// The candidate's log is at least as up-to-date as ours: its last term is
/// later, or equal with a last index at least ours.
pub open spec fn log_up_to_date(
    candidate_last_term: u64,
    candidate_last_index: u64,
    our_last_term: u64,
    our_last_index: u64,
) -> bool {
    candidate_last_term > our_last_term || (candidate_last_term == our_last_term
        && candidate_last_index >= our_last_index)
}

/// The outcome of a RequestVote: the hard state afterwards and whether the
/// vote is granted.
///
/// A request from an older term is refused. A request from a newer term first
/// moves us to that term with no vote cast. The vote is then granted when we
/// have not voted for anyone else in this term and the candidate's log is at
/// least as up-to-date as ours; granting records the vote.
pub open spec fn vote_outcome(
    hard: HardStateView,
    our_last_index: u64,
    our_last_term: u64,
    candidate_term: u64,
    candidate_id: Seq<char>,
    last_log_index: u64,
    last_log_term: u64,
) -> (HardStateView, bool) {
    if candidate_term < hard.current_term {
        (hard, false)
    } else {
        let voted = if candidate_term > hard.current_term {
            None
        } else {
            hard.voted_for
        };
        let grant = (voted is None || voted == Some(candidate_id)) && log_up_to_date(
            last_log_term,
            last_log_index,
            our_last_term,
            our_last_index,
        );
        (
            HardStateView {
                current_term: candidate_term,
                voted_for: if grant {
                    Some(candidate_id)
                } else {
                    voted
                },
            },
            grant,
        )
    }
}

/// Handle a RequestVote RPC sent by another candidate to us.
///
/// Updates the hard state as [`vote_outcome`] says (the caller persists it
/// before replying, and resets its election timer when the vote is granted);
/// on a newer term we step down to follower. Returns our term and whether the
/// vote is granted.
pub fn handle_request_vote(
    state: &mut RaftState,
    hard: &mut HardState,
    log: &RaftLog,
    candidate_term: u64,
    candidate_id: String,
    last_log_index: u64,
    last_log_term: u64,
) -> (r: (u64, bool))
    requires
        log.wf(),
    ensures
        (final(hard)@, r.1) == vote_outcome(
            old(hard)@,
            log@.last_index(),
            log@.last_term(),
            candidate_term,
            candidate_id@,
            last_log_index,
            last_log_term,
        ),
        r.0 == final(hard).current_term,
        if candidate_term > old(hard).current_term {
            &&& final(state).role == Role::Follower
            &&& final(state).leader_state is None
            &&& final(state).votes_received == 0
            &&& final(state).current_leader is None
            &&& final(state).commit_index == old(state).commit_index
            &&& final(state).last_applied == old(state).last_applied
            &&& final(state).node_id == old(state).node_id
            &&& final(state).peer_ids == old(state).peer_ids
        } else {
            *final(state) == *old(state)
        },
{
    let our_last_index = log.last_index();
    let our_last_term = log.last_term();
    if candidate_term < hard.current_term {
        return (hard.current_term, false);
    }
    if candidate_term > hard.current_term {
        hard.current_term = candidate_term;
        hard.voted_for = None;
        state.become_follower(None);
    }
    let free = match &hard.voted_for {
        None => true,
        Some(v) => *v == candidate_id,
    };
    let up_to_date = last_log_term > our_last_term || (last_log_term == our_last_term
        && last_log_index >= our_last_index);
    let grant = free && up_to_date;
    if grant {
        hard.voted_for = Some(candidate_id);
    }
    (hard.current_term, grant)
}

/// A node grants at most one vote per term: once it has granted its vote to
/// one candidate, a request from a different candidate in the same term is
/// refused.
pub proof fn lemma_one_vote_per_term(
    hard: HardStateView,
    our_last_index: u64,
    our_last_term: u64,
    term: u64,
    a: Seq<char>,
    a_last_index: u64,
    a_last_term: u64,
    b: Seq<char>,
    b_last_index: u64,
    b_last_term: u64,
)
    requires
        a != b,
        vote_outcome(hard, our_last_index, our_last_term, term, a, a_last_index, a_last_term).1,
    ensures
        !vote_outcome(
            vote_outcome(hard, our_last_index, our_last_term, term, a, a_last_index, a_last_term).0,
            our_last_index,
            our_last_term,
            term,
            b,
            b_last_index,
            b_last_term,
        ).1,
{
}

/// Which of two logs is more up-to-date is decided by the terms of their last
/// entries first, and only for equal last terms by their lengths. So, when the
/// request's term is current and our vote in it is free (or already the
/// candidate's): a candidate whose last entry has a later term than ours gets
/// the vote whatever the two last indices are; one whose last term is earlier
/// never gets it; and with equal last terms it gets it exactly when its log is
/// at least as long as ours.
pub proof fn lemma_vote_follows_log_recency(
    hard: HardStateView,
    our_last_index: u64,
    our_last_term: u64,
    candidate_term: u64,
    candidate_id: Seq<char>,
    last_log_index: u64,
    last_log_term: u64,
)
    requires
        candidate_term >= hard.current_term,
        candidate_term > hard.current_term || hard.voted_for is None || hard.voted_for == Some(
            candidate_id,
        ),
    ensures
        last_log_term > our_last_term ==> vote_outcome(
            hard,
            our_last_index,
            our_last_term,
            candidate_term,
            candidate_id,
            last_log_index,
            last_log_term,
        ).1,
        last_log_term < our_last_term ==> !vote_outcome(
            hard,
            our_last_index,
            our_last_term,
            candidate_term,
            candidate_id,
            last_log_index,
            last_log_term,
        ).1,
        last_log_term == our_last_term ==> (vote_outcome(
            hard,
            our_last_index,
            our_last_term,
            candidate_term,
            candidate_id,
            last_log_index,
            last_log_term,
        ).1 <==> last_log_index >= our_last_index),
{
}

/// A node's term never decreases when it answers a vote request.
pub proof fn lemma_vote_term_monotonic(
    hard: HardStateView,
    our_last_index: u64,
    our_last_term: u64,
    candidate_term: u64,
    candidate_id: Seq<char>,
    last_log_index: u64,
    last_log_term: u64,
)
    ensures
        vote_outcome(
            hard,
            our_last_index,
            our_last_term,
            candidate_term,
            candidate_id,
            last_log_index,
            last_log_term,
        ).0.current_term >= hard.current_term,
{
}

/// Process a single RequestVote response from a peer.
///
/// A response with a higher term moves us to that term with no vote and back
/// to follower. A granted vote for our current term, while we are still a
/// candidate, is counted; reaching a quorum makes us leader. Anything else is
/// ignored. Returns whether we became leader.
pub fn handle_vote_response(
    state: &mut RaftState,
    hard: &mut HardState,
    peer_term: u64,
    vote_granted: bool,
    last_log_index: u64,
) -> (r: bool)
    requires
        last_log_index < u64::MAX,
    ensures
        if peer_term > old(hard).current_term {
            &&& !r
            &&& final(hard)@ == (HardStateView { current_term: peer_term, voted_for: None })
            &&& final(state).role == Role::Follower
            &&& final(state).leader_state is None
            &&& final(state).votes_received == 0
            &&& final(state).current_leader is None
            &&& final(state).commit_index == old(state).commit_index
            &&& final(state).last_applied == old(state).last_applied
        } else if vote_granted && peer_term == old(hard).current_term && old(state).role
            == Role::Candidate {
            let votes = if old(state).votes_received < usize::MAX {
                old(state).votes_received + 1
            } else {
                old(state).votes_received as int
            };
            &&& *final(hard) == *old(hard)
            &&& final(state).votes_received == votes
            &&& r == (votes >= old(state).spec_quorum())
            &&& r ==> final(state).role == Role::Leader && final(state).current_leader == Some(
                old(state).node_id,
            ) && final(state).wf() && (final(state).leader_state matches Some(ls)
                && ls.is_fresh(old(state).peer_ids@, last_log_index))
            &&& !r ==> final(state).role == Role::Candidate
            &&& final(state).commit_index == old(state).commit_index
            &&& final(state).last_applied == old(state).last_applied
        } else {
            &&& !r
            &&& *final(hard) == *old(hard)
            &&& *final(state) == *old(state)
        },
{
    if peer_term > hard.current_term {
        hard.current_term = peer_term;
        hard.voted_for = None;
        state.become_follower(None);
        return false;
    }
    if vote_granted && peer_term == hard.current_term && state.role == Role::Candidate {
        if state.votes_received < usize::MAX {
            state.votes_received = state.votes_received + 1;
        }
        if state.votes_received >= state.quorum() {
            state.become_leader(last_log_index);
            return true;
        }
    }
    false
}

/// At most one leader per term: since each node casts at most one vote per
/// term (see [`lemma_one_vote_per_term`]), two candidates that each collect
/// votes from a quorum of the same cluster in one term are the same candidate.
pub proof fn lemma_election_safety<T>(
    cluster: Set<T>,
    vote_in_term: spec_fn(T) -> Option<Seq<char>>,
    a: Seq<char>,
    voters_a: Set<T>,
    b: Seq<char>,
    voters_b: Set<T>,
)
    requires
        cluster.finite(),
        voters_a.subset_of(cluster),
        voters_b.subset_of(cluster),
        voters_a.len() >= quorum_size(cluster.len() as int),
        voters_b.len() >= quorum_size(cluster.len() as int),
        forall|x: T| #[trigger] voters_a.contains(x) ==> vote_in_term(x) == Some(a),
        forall|x: T| #[trigger] voters_b.contains(x) ==> vote_in_term(x) == Some(b),
    ensures
        a == b,
{
    lemma_quorums_intersect(cluster, voters_a, voters_b);
    let x = choose|x: T| voters_a.contains(x) && voters_b.contains(x);
    assert(vote_in_term(x) == Some(a));
    assert(vote_in_term(x) == Some(b));
}

} // verus!
