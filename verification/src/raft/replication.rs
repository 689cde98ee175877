//! Log replication: what the leader sends each peer, how it reacts to the
//! replies, how a follower handles AppendEntries, client proposals, and the
//! order in which committed entries are applied.
use crate::raft::log::{KvCommand, KvCommandView, LogEntry, LogEntryView, RaftLog, RaftLogView, merged};
use crate::raft::state::{LeaderState, RaftState, Role, lookup, set_value};
use crate::storage::{HardState, HardStateView};
use vstd::prelude::*;
use vstd::utf8::encode_utf8;

verus! {

// ─── Leader side ─────────────────────────────────────────────────────────────

/// The arguments of an AppendEntries RPC.
#[derive(Debug, Clone)]
pub struct AppendEntriesArgs {
    pub term: u64,
    pub leader_id: String,
    pub prev_log_index: u64,
    pub prev_log_term: u64,
    pub entries: Vec<LogEntry>,
    pub leader_commit: u64,
}

/// The reply to an AppendEntries RPC.
#[derive(Debug, Clone, Copy, PartialEq, Eq, Structural)]
pub struct AppendEntriesReply {
    pub term: u64,
    pub success: bool,
    /// On rejection: the index the leader should retry from (0 = no hint).
    pub conflict_index: u64,
    /// On rejection: the term of our entry at the leader's previous index (0 = none).
    pub conflict_term: u64,
}

/// What the leader sends a peer to bring it up to date.
#[derive(Debug, Clone)]
pub enum ReplicationMessage {
    /// Entries after the peer's next index (none for a heartbeat).
    AppendEntries(AppendEntriesArgs),
    /// The peer needs entries we have compacted: send our latest snapshot,
    /// which covers the log up to this index and term.
    InstallSnapshot { term: u64, leader_id: String, last_included_index: u64, last_included_term: u64 },
}

/// Views of a sequence of entries.
pub open spec fn entry_views(s: Seq<LogEntry>) -> Seq<LogEntryView> {
    s.map_values(|e: LogEntry| e@)
}

/// Copies of the entries of a slice.
fn copy_entries(s: &[LogEntry]) -> (r: Vec<LogEntry>)
    ensures
        entry_views(r@) == entry_views(s@),
{
    let mut r: Vec<LogEntry> = Vec::new();
    let mut i: usize = 0;
    while i < s.len()
        invariant
            0 <= i <= s@.len(),
            r@.len() == i,
            forall|k: int| 0 <= k < i ==> #[trigger] r@[k]@ == s@[k]@,
        decreases s@.len() - i,
    {
        let e = s[i].duplicate();
        r.push(e);
        i = i + 1;
    }
    assert(entry_views(r@) =~= entry_views(s@));
    r
}

/// The index of the entry just before those sent to a peer whose next index
/// is `next`: `next - 1`, but never past our last entry.
pub open spec fn previous_index(log: RaftLogView, next: u64) -> u64 {
    if next - 1 > log.last_index() {
        log.last_index()
    } else {
        (next - 1) as u64
    }
}

/// Build what the leader should send `peer_id` now.
///
/// Nothing when we are not leading or do not track the peer. When the peer's
/// next index is at or below our snapshot, the snapshot. Otherwise an
/// AppendEntries carrying our entries after the previous index, with that
/// index's term and our commit index.
pub fn replication_message(state: &RaftState, log: &RaftLog, current_term: u64, peer_id: &String) -> (r:
    Option<ReplicationMessage>)
    requires
        state.wf(),
        log.wf(),
    ensures
        match state.leader_state {
            None => r is None,
            Some(ls) => match lookup(ls.next_index@, peer_id@) {
                None => r is None,
                Some(next) => if next <= log@.snapshot_index {
                    r matches Some(ReplicationMessage::InstallSnapshot {
                        term,
                        leader_id,
                        last_included_index,
                        last_included_term,
                    }) && term == current_term && leader_id@ == state.node_id@
                        && last_included_index == log@.snapshot_index && last_included_term
                        == log@.snapshot_term
                } else {
                    r matches Some(ReplicationMessage::AppendEntries(args)) && {
                        let prev = previous_index(log@, next);
                        &&& args.term == current_term
                        &&& args.leader_id@ == state.node_id@
                        &&& args.prev_log_index == prev
                        &&& Some(args.prev_log_term) == log@.term_at(prev)
                        &&& entry_views(args.entries@) == entry_views(log@.entries_after(prev))
                        &&& args.leader_commit == state.commit_index
                    }
                },
            },
        },
{
    let ls = match &state.leader_state {
        Some(ls) => ls,
        None => {
            return None;
        },
    };
    let next = match ls.next_index.get(peer_id) {
        Some(n) => n,
        None => {
            return None;
        },
    };
    let snap = log.snapshot_index();
    let last = log.last_index();
    if next <= snap {
        return Some(
            ReplicationMessage::InstallSnapshot {
                term: current_term,
                leader_id: state.node_id.clone(),
                last_included_index: snap,
                last_included_term: log.snapshot_term(),
            },
        );
    }
    let prev: u64 = if next - 1 > last {
        last
    } else {
        next - 1
    };
    let prev_term = match log.term_at(prev) {
        Some(t) => t,
        None => {
            return None;
        },
    };
    let entries = copy_entries(log.entries_from(prev));
    Some(
        ReplicationMessage::AppendEntries(
            AppendEntriesArgs {
                term: current_term,
                leader_id: state.node_id.clone(),
                prev_log_index: prev,
                prev_log_term: prev_term,
                entries,
                leader_commit: state.commit_index,
            },
        ),
    )
}

/// Move the leader's commit index up to the highest index a quorum holds in
/// the current term (see [`RaftState::maybe_advance_commit`]). Returns whether
/// it advanced.
pub fn advance_commit(state: &mut RaftState, log: &RaftLog, current_term: u64) -> (r: bool)
    requires
        old(state).wf(),
        log.wf(),
    ensures
        final(state).wf(),
        final(state).commit_index >= old(state).commit_index,
        old(state).last_applied <= old(state).commit_index ==> final(state).last_applied
            <= final(state).commit_index,
        r == (final(state).commit_index > old(state).commit_index),
        final(state).commit_index == old(state).commit_index || old(state).can_commit(
            log@,
            current_term,
            final(state).commit_index,
        ),
        forall|n: u64|
            final(state).commit_index < n ==> !old(state).can_commit(log@, current_term, n),
        *final(state) == (RaftState { commit_index: final(state).commit_index, ..*old(state) }),
{
    let old_commit = state.commit_index;
    let new_commit = state.maybe_advance_commit(current_term, log);
    if new_commit > old_commit {
        state.commit_index = new_commit;
        true
    } else {
        false
    }
}

/// Process a successful AppendEntries response from a peer: record its
/// progress and move the commit index up to what a quorum now holds in the
/// current term. Returns whether the commit index advanced (the caller then
/// wakes the apply loop). Does nothing unless we are leading.
pub fn on_append_entries_success(
    state: &mut RaftState,
    log: &RaftLog,
    current_term: u64,
    peer_id: &str,
    match_index: u64,
) -> (r: bool)
    requires
        old(state).wf(),
        log.wf(),
        match_index < u64::MAX,
    ensures
        final(state).wf(),
        final(state).role == old(state).role,
        final(state).node_id == old(state).node_id,
        final(state).peer_ids == old(state).peer_ids,
        final(state).last_applied == old(state).last_applied,
        final(state).votes_received == old(state).votes_received,
        final(state).current_leader == old(state).current_leader,
        final(state).commit_index >= old(state).commit_index,
        r == (final(state).commit_index > old(state).commit_index),
        match old(state).leader_state {
            None => *final(state) == *old(state),
            Some(ls) => final(state).leader_state matches Some(nls) && {
                &&& nls.match_index@ == match lookup(ls.match_index@, peer_id@) {
                    Some(m) => set_value(
                        ls.match_index@,
                        peer_id@,
                        if m < match_index { match_index } else { m },
                    ),
                    None => ls.match_index@,
                }
                &&& nls.next_index@ == match lookup(ls.next_index@, peer_id@) {
                    Some(_) => set_value(ls.next_index@, peer_id@, (match_index + 1) as u64),
                    None => ls.next_index@,
                }
                &&& final(state).commit_index == old(state).commit_index || final(state).can_commit(log@, current_term, final(state).commit_index)
                &&& forall|n: u64|
                    final(state).commit_index < n ==> !final(state).can_commit(
                        log@,
                        current_term,
                        n,
                    )
            },
        },
{
    let mut ls = match state.leader_state.take() {
        Some(ls) => ls,
        None => {
            return false;
        },
    };
    ls.record_replication(peer_id, match_index);
    state.leader_state = Some(ls);
    let ghost s1 = *state;
    let r = advance_commit(state, log, current_term);
    assert forall|n: u64| #[trigger] state.can_commit(log@, current_term, n) == s1.can_commit(
        log@,
        current_term,
        n,
    ) by {}
    r
}

/// Process a failed AppendEntries response: a higher term sends us back to
/// follower in that term with no vote (returns true; the caller persists the
/// hard state); otherwise the peer's next index is moved back using its hint.
pub fn on_append_entries_failure(
    state: &mut RaftState,
    hard: &mut HardState,
    peer_id: &str,
    peer_term: u64,
    conflict_index: u64,
    conflict_term: u64,
) -> (r: bool)
    requires
        old(state).wf(),
    ensures
        final(state).wf(),
        r == (peer_term > old(hard).current_term),
        r ==> {
            &&& final(hard)@ == (HardStateView { current_term: peer_term, voted_for: None })
            &&& final(state).role == Role::Follower
            &&& final(state).leader_state is None
            &&& final(state).current_leader is None
            &&& final(state).commit_index == old(state).commit_index
            &&& final(state).last_applied == old(state).last_applied
        },
        !r ==> {
            &&& *final(hard) == *old(hard)
            &&& final(state).role == old(state).role
            &&& final(state).commit_index == old(state).commit_index
            &&& final(state).last_applied == old(state).last_applied
            &&& match old(state).leader_state {
                None => *final(state) == *old(state),
                Some(ls) => final(state).leader_state matches Some(nls) && {
                    &&& nls.match_index@ == ls.match_index@
                    &&& nls.next_index@ == match lookup(ls.next_index@, peer_id@) {
                        Some(n) => set_value(
                            ls.next_index@,
                            peer_id@,
                            crate::raft::state::rewound_next_index(n, conflict_index),
                        ),
                        None => ls.next_index@,
                    }
                },
            }
        },
{
    if peer_term > hard.current_term {
        hard.current_term = peer_term;
        hard.voted_for = None;
        state.become_follower(None);
        return true;
    }
    let mut ls = match state.leader_state.take() {
        Some(ls) => ls,
        None => {
            return false;
        },
    };
    ls.record_rejection(peer_id, conflict_index, conflict_term);
    state.leader_state = Some(ls);
    false
}

/// Why a client command was not accepted.
#[derive(Debug, Clone, Copy, PartialEq, Eq, Structural)]
pub enum ProposeError {
    /// Only the leader accepts writes.
    NotLeader,
    /// The log has used every index.
    LogFull,
}

/// Append a client command to the leader's log in the current term and return
/// the index it was given (the caller then replicates it to the peers).
pub fn propose(state: &RaftState, log: &mut RaftLog, current_term: u64, command: KvCommand) -> (r:
    Result<u64, ProposeError>)
    requires
        old(log).wf(),
    ensures
        final(log).wf(),
        state.role != Role::Leader ==> r == Err::<u64, ProposeError>(ProposeError::NotLeader)
            && final(log)@ == old(log)@,
        state.role == Role::Leader && old(log)@.last_index() == u64::MAX ==> r == Err::<
            u64,
            ProposeError,
        >(ProposeError::LogFull) && final(log)@ == old(log)@,
        state.role == Role::Leader && old(log)@.last_index() < u64::MAX ==> {
            &&& r == Ok::<u64, ProposeError>((old(log)@.last_index() + 1) as u64)
            &&& final(log)@.snapshot_index == old(log)@.snapshot_index
            &&& final(log)@.snapshot_term == old(log)@.snapshot_term
            &&& final(log)@.entries.take(old(log)@.entries.len() as int) == old(log)@.entries
            &&& final(log)@.entries.len() == old(log)@.entries.len() + 1
            &&& final(log)@.entries.last()@ == (LogEntryView {
                term: current_term,
                index: (old(log)@.last_index() + 1) as u64,
                command: command@,
            })
        },
{
    if state.role != Role::Leader {
        return Err(ProposeError::NotLeader);
    }
    if log.last_index() == u64::MAX {
        return Err(ProposeError::LogFull);
    }
    let entry = log.append(current_term, command);
    Ok(entry.index)
}

// ─── Follower side ───────────────────────────────────────────────────────────

/// The leader's previous entry matches ours: there is none (index 0), or we
/// have that index with that term.
pub open spec fn prev_matches(log: RaftLogView, prev_log_index: u64, prev_log_term: u64) -> bool {
    prev_log_index == 0 || log.term_at(prev_log_index) == Some(prev_log_term)
}

/// A follower always holds the entry at its own snapshot point and at its last
/// index, with the terms it records for them. So a leader whose previous entry
/// is either of these (with that term) passes the consistency check; in
/// particular a follower whose log ends at its snapshot point accepts the
/// entries that follow it.
pub proof fn lemma_previous_entry_at_our_end_matches(v: RaftLogView)
    requires
        v.well_indexed(),
    ensures
        prev_matches(v, v.snapshot_index, v.snapshot_term),
        prev_matches(v, v.last_index(), v.last_term()),
        v.entries.len() == 0 ==> prev_matches(v, v.last_index(), v.snapshot_term),
{
    if v.entries.len() > 0 {
        let k = v.entries.len() - 1;
        assert(v.entries[k].index == v.snapshot_index + 1 + k);
        assert(v.holds(v.last_index()));
    }
}

/// The batch carries consecutive indices starting right after `prev_log_index`.
pub open spec fn batch_follows(entries: Seq<LogEntry>, prev_log_index: u64) -> bool {
    forall|i: int| 0 <= i < entries.len() ==> #[trigger] entries[i].index == prev_log_index + 1 + i
}

/// The hint sent back when our log does not contain the leader's previous
/// entry: our next free index and term 0 when our log is too short, otherwise
/// the previous index and the term we hold there (0 if compacted).
pub open spec fn conflict_hint(log: RaftLogView, prev_log_index: u64) -> (u64, u64) {
    if prev_log_index > log.last_index() {
        ((log.last_index() + 1) as u64, 0)
    } else {
        (
            prev_log_index,
            match log.term_at(prev_log_index) {
                Some(t) => t,
                None => 0,
            },
        )
    }
}

/// The commit index after a successful AppendEntries: when the leader's commit
/// index is ahead of ours, it moves to the smaller of that and the index of the
/// last new entry (the last index the leader sent: its previous index plus the
/// batch length), never backwards. Entries of ours past the leader's batch are
/// not known to match the leader's log, so they are never marked committed here.
pub open spec fn follower_commit(commit: u64, leader_commit: u64, last_new_index: u64) -> u64 {
    if leader_commit > commit {
        let target = if leader_commit < last_new_index {
            leader_commit
        } else {
            last_new_index
        };
        if target > commit {
            target
        } else {
            commit
        }
    } else {
        commit
    }
}

/// Handle an AppendEntries RPC from a leader.
///
/// A request from an older term is rejected with our term. Otherwise we follow
/// this leader (adopting its term, with no vote, when it is newer; the caller
/// persists the hard state and resets its election timer). If our log lacks
/// the leader's previous entry, or the batch is not a run of consecutive
/// indices right after it, the request is rejected with a hint. Otherwise the
/// batch is merged into our log and our commit index follows the leader's, up
/// to the last entry the leader sent.
pub fn handle_append_entries(
    state: &mut RaftState,
    hard: &mut HardState,
    log: &mut RaftLog,
    args: AppendEntriesArgs,
) -> (r: AppendEntriesReply)
    requires
        old(log).wf(),
    ensures
        final(log).wf(),
        final(state).commit_index >= old(state).commit_index,
        old(state).last_applied <= old(state).commit_index ==> final(state).last_applied
            <= final(state).commit_index,
        args.term < old(hard).current_term ==> {
            &&& r == AppendEntriesReply {
                term: old(hard).current_term,
                success: false,
                conflict_index: 0,
                conflict_term: 0,
            }
            &&& *final(hard) == *old(hard)
            &&& *final(state) == *old(state)
            &&& final(log)@ == old(log)@
        },
        r.success <==> {
            &&& args.term >= old(hard).current_term
            &&& (args.prev_log_index == 0 || old(log)@.term_at(args.prev_log_index) == Some(
                args.prev_log_term,
            ))
            &&& batch_follows(args.entries@, args.prev_log_index)
        },
        args.term >= old(hard).current_term ==> {
            &&& final(hard)@ == if args.term > old(hard).current_term {
                HardStateView { current_term: args.term, voted_for: None }
            } else {
                old(hard)@
            }
            &&& r.term == args.term
            &&& final(state).role == Role::Follower
            &&& final(state).leader_state is None
            &&& final(state).votes_received == 0
            &&& final(state).current_leader == Some(args.leader_id)
            &&& final(state).last_applied == old(state).last_applied
            &&& final(state).node_id == old(state).node_id
            &&& final(state).peer_ids == old(state).peer_ids
            &&& if !prev_matches(old(log)@, args.prev_log_index, args.prev_log_term) {
                &&& !r.success
                &&& (r.conflict_index, r.conflict_term) == conflict_hint(
                    old(log)@,
                    args.prev_log_index,
                )
                &&& final(log)@ == old(log)@
                &&& final(state).commit_index == old(state).commit_index
            } else if !batch_follows(args.entries@, args.prev_log_index) {
                &&& !r.success
                &&& r.conflict_index == 0
                &&& r.conflict_term == 0
                &&& final(log)@ == old(log)@
                &&& final(state).commit_index == old(state).commit_index
            } else {
                &&& r.success
                &&& r.conflict_index == 0
                &&& r.conflict_term == 0
                &&& final(log)@ == merged(old(log)@, args.entries@)
                &&& forall|index: u64|
                    index <= args.prev_log_index ==> #[trigger] final(log)@.entry_at(index)
                        == old(log)@.entry_at(index)
                &&& final(state).commit_index == follower_commit(
                    old(state).commit_index,
                    args.leader_commit,
                    (args.prev_log_index + args.entries@.len()) as u64,
                )
                &&& final(state).commit_index > old(state).commit_index ==> {
                    &&& final(state).commit_index <= args.leader_commit
                    &&& final(state).commit_index <= args.prev_log_index + args.entries@.len()
                }
            }
        },
{
    if args.term < hard.current_term {
        return AppendEntriesReply {
            term: hard.current_term,
            success: false,
            conflict_index: 0,
            conflict_term: 0,
        };
    }
    if args.term > hard.current_term {
        hard.current_term = args.term;
        hard.voted_for = None;
    }
    let term = hard.current_term;
    state.become_follower(Some(args.leader_id));
    let prev = args.prev_log_index;
    let last = log.last_index();
    let prev_term = log.term_at(prev);
    let matches = prev == 0 || match prev_term {
        Some(t) => t == args.prev_log_term,
        None => false,
    };
    if !matches {
        let (ci, ct) = if prev > last {
            (last + 1, 0)
        } else {
            (
                prev,
                match prev_term {
                    Some(t) => t,
                    None => 0,
                },
            )
        };
        return AppendEntriesReply { term, success: false, conflict_index: ci, conflict_term: ct };
    }
    let entries = args.entries;
    let mut i: usize = 0;
    let mut follows = true;
    while i < entries.len()
        invariant
            0 <= i <= entries@.len(),
            follows ==> forall|k: int| 0 <= k < i ==> #[trigger] entries@[k].index == prev + 1 + k,
            !follows ==> !batch_follows(entries@, prev),
        ensures
            follows <==> batch_follows(entries@, prev),
        decreases entries@.len() - i,
    {
        if prev >= u64::MAX - i as u64 || entries[i].index != prev + 1 + i as u64 {
            assert(entries@[i as int].index != prev + 1 + i);
            follows = false;
            break;
        }
        i = i + 1;
    }
    if !follows {
        return AppendEntriesReply { term, success: false, conflict_index: 0, conflict_term: 0 };
    }
    proof {
        if entries@.len() > 0 {
            assert(entries@[0].index == prev + 1);
            assert(prev <= log@.last_index()) by {
                if prev != 0 && prev != log@.snapshot_index {
                    assert(log@.holds(prev));
                }
            }
        }
    }
    let ghost before = log@;
    let ghost batch = entries@;
    proof {
        log.lemma_well_indexed();
    }
    let n = entries.len();
    let appended_last = log.append_entries(entries);
    // The index of the last new entry: the batch's last index, or the leader's
    // previous index for an empty batch.
    let new_last: u64 = if n > 0 {
        appended_last
    } else {
        prev
    };
    proof {
        if n > 0 {
            assert(batch[n - 1].index == prev + 1 + (n - 1));
        }
        assert forall|index: u64| index <= prev implies #[trigger] log@.entry_at(index)
            == before.entry_at(index) by {
            crate::raft::log::lemma_merge_keeps_prefix(before, batch, index);
        }
    }
    let leader_commit = args.leader_commit;
    if leader_commit > state.commit_index {
        let target = if leader_commit < new_last {
            leader_commit
        } else {
            new_last
        };
        if target > state.commit_index {
            state.commit_index = target;
        }
    }
    AppendEntriesReply { term, success: true, conflict_index: 0, conflict_term: 0 }
}

// ─── Applying committed entries ──────────────────────────────────────────────

/// What applying one committed entry does to the key-value state machine.
#[derive(Debug, Clone)]
pub enum StateMachineOp {
    Put { key: Vec<u8>, value: Vec<u8> },
    Delete { key: Vec<u8> },
    Nothing,
}

/// The state machine operation for a command: keys are stored as their UTF-8
/// bytes; a no-op changes nothing.
pub open spec fn command_effect(c: KvCommandView) -> (Option<Seq<u8>>, Option<Seq<u8>>) {
    match c {
        KvCommandView::Put { key, value } => (Some(encode_utf8(key)), Some(value)),
        KvCommandView::Delete { key } => (Some(encode_utf8(key)), None),
        KvCommandView::Noop => (None, None),
    }
}

/// The key-value state machine after applying a command.
pub open spec fn apply_command(m: Map<Seq<u8>, Seq<u8>>, c: KvCommandView) -> Map<Seq<u8>, Seq<u8>> {
    match c {
        KvCommandView::Put { key, value } => m.insert(encode_utf8(key), value),
        KvCommandView::Delete { key } => m.remove(encode_utf8(key)),
        KvCommandView::Noop => m,
    }
}

/// Apply a single committed log entry: the operation to perform on the state machine.
pub fn apply_entry(entry: &LogEntry) -> (r: StateMachineOp)
    ensures
        match entry.command@ {
            KvCommandView::Put { key, value } => r matches StateMachineOp::Put { key: k, value: v }
                && k@ == encode_utf8(key) && v@ == value,
            KvCommandView::Delete { key } => r matches StateMachineOp::Delete { key: k } && k@
                == encode_utf8(key),
            KvCommandView::Noop => r is Nothing,
        },
{
    match &entry.command {
        KvCommand::Put { key, value } => StateMachineOp::Put {
            key: vstd::slice::slice_to_vec(key.as_str().as_bytes()),
            value: value.clone(),
        },
        KvCommand::Delete { key } => StateMachineOp::Delete {
            key: vstd::slice::slice_to_vec(key.as_str().as_bytes()),
        },
        KvCommand::Noop => StateMachineOp::Nothing,
    }
}

/// The next committed entry to apply: the one after `last_applied`, when it
/// is committed and held in the log.
pub fn next_to_apply<'a>(state: &RaftState, log: &'a RaftLog) -> (r: Option<&'a LogEntry>)
    requires
        log.wf(),
    ensures
        state.last_applied < state.commit_index ==> match r {
            Some(e) => log@.entry_at((state.last_applied + 1) as u64) == Some(*e),
            None => log@.entry_at((state.last_applied + 1) as u64) is None,
        },
        state.last_applied >= state.commit_index ==> r is None,
{
    if state.last_applied < state.commit_index {
        log.get(state.last_applied + 1)
    } else {
        None
    }
}

} // verus!
