//! Log compaction via snapshots: when to take one, the point it covers, and
//! installing one received from the leader.
use crate::config::RaftConfig;
use crate::raft::log::RaftLog;
use crate::raft::state::{RaftState, Role};
use crate::storage::{HardState, HardStateView};
use vstd::prelude::*;

verus! {

/// The on-disk representation of a snapshot.
#[derive(Debug, Clone)]
pub struct Snapshot {
    /// The log index this snapshot replaces up to (inclusive).
    pub last_included_index: u64,
    /// The term of last_included_index.
    pub last_included_term: u64,
    /// The full state machine: a list of (key, value) pairs.
    pub state: Vec<(Vec<u8>, Vec<u8>)>,
}

/// Returns true if it's time to take a snapshot: more entries than the
/// configured threshold have accumulated since the last one.
pub fn should_snapshot(log: &RaftLog, cfg: &RaftConfig) -> (r: bool)
    requires
        log.wf(),
    ensures
        r == (log@.last_index() - log@.snapshot_index > cfg.snapshot_threshold),
{
    let entries_since_snapshot = log.last_index() - log.snapshot_index();
    entries_since_snapshot > cfg.snapshot_threshold
}

/// The point a new snapshot covers: everything applied so far, that is the
/// last applied index and the term of its entry. Nothing when that index is
/// behind the current snapshot or not in the log.
pub fn snapshot_point(state: &RaftState, log: &RaftLog) -> (r: Option<(u64, u64)>)
    requires
        log.wf(),
    ensures
        r == if state.last_applied < log@.snapshot_index {
            None
        } else {
            match log@.term_at(state.last_applied) {
                Some(t) => Some((state.last_applied, t)),
                None => None,
            }
        },
{
    if state.last_applied < log.snapshot_index() {
        return None;
    }
    match log.term_at(state.last_applied) {
        Some(t) => Some((state.last_applied, t)),
        None => None,
    }
}

/// Handle an InstallSnapshot RPC from the leader, in memory.
///
/// A request from an older term is ignored. Otherwise we follow this leader
/// (adopting its term, with no vote, when it is newer). A snapshot that does
/// not go past our commit index (or behind our own snapshot) is ignored;
/// otherwise the log is compacted up to it and it counts as committed and
/// applied. Returns our current term and whether the snapshot was installed;
/// when it was, the caller saves it and restores the state machine from it.
pub fn handle_install_snapshot(
    state: &mut RaftState,
    hard: &mut HardState,
    log: &mut RaftLog,
    leader_term: u64,
    leader_id: String,
    last_included_index: u64,
    last_included_term: u64,
) -> (r: (u64, bool))
    requires
        old(log).wf(),
    ensures
        final(log).wf(),
        final(state).commit_index >= old(state).commit_index,
        old(state).last_applied <= old(state).commit_index ==> final(state).last_applied
            <= final(state).commit_index,
        leader_term < old(hard).current_term ==> {
            &&& r == (old(hard).current_term, false)
            &&& *final(hard) == *old(hard)
            &&& *final(state) == *old(state)
            &&& final(log)@ == old(log)@
        },
        leader_term >= old(hard).current_term ==> {
            &&& final(hard)@ == if leader_term > old(hard).current_term {
                HardStateView { current_term: leader_term, voted_for: None }
            } else {
                old(hard)@
            }
            &&& r.0 == leader_term
            &&& final(state).role == Role::Follower
            &&& final(state).leader_state is None
            &&& final(state).current_leader == Some(leader_id)
            &&& if last_included_index <= old(state).commit_index || last_included_index < old(log)@.snapshot_index {
                &&& !r.1
                &&& final(log)@ == old(log)@
                &&& final(state).commit_index == old(state).commit_index
                &&& final(state).last_applied == old(state).last_applied
            } else {
                &&& r.1
                &&& final(log)@.snapshot_index == last_included_index
                &&& final(log)@.snapshot_term == last_included_term
                &&& final(log)@.entries == old(log)@.compacted(last_included_index)
                &&& final(state).commit_index == last_included_index
                &&& final(state).last_applied == last_included_index
            }
        },
{
    if leader_term < hard.current_term {
        return (hard.current_term, false);
    }
    if leader_term > hard.current_term {
        hard.current_term = leader_term;
        hard.voted_for = None;
    }
    state.become_follower(Some(leader_id));
    if last_included_index <= state.commit_index || last_included_index < log.snapshot_index() {
        return (hard.current_term, false);
    }
    log.compact_to(last_included_index, last_included_term);
    state.commit_index = last_included_index;
    state.last_applied = last_included_index;
    (hard.current_term, true)
}

} // verus!
