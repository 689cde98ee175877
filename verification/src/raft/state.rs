//! Volatile Raft state: the node's role, commit/apply progress and the
//! per-peer replication progress a leader keeps.
use crate::raft::log::{RaftLog, RaftLogView};
use vstd::prelude::*;

verus! {

/// The current role of this Raft node.
#[derive(Debug, Clone, Copy, PartialEq, Eq, Structural)]
pub enum Role {
    Follower,
    Candidate,
    Leader,
}

impl Role {
    /// The role's name, as it is displayed.
    pub fn display_name(&self) -> (r: String)
        ensures
            r@ == match self {
                Role::Follower => "Follower"@,
                Role::Candidate => "Candidate"@,
                Role::Leader => "Leader"@,
            },
    {
        match self {
            Role::Follower => String::from_str("Follower"),
            Role::Candidate => String::from_str("Candidate"),
            Role::Leader => String::from_str("Leader"),
        }
    }
}

// ─── Per-peer index table ────────────────────────────────────────────────────

/// Whether some entry of the table is keyed by `peer`.
pub open spec fn has_peer(s: Seq<(Seq<char>, u64)>, peer: Seq<char>) -> bool {
    exists|i: int| 0 <= i < s.len() && #[trigger] s[i].0 == peer
}

/// The value recorded for `peer`, if any.
pub open spec fn lookup(s: Seq<(Seq<char>, u64)>, peer: Seq<char>) -> Option<u64> {
    if has_peer(s, peer) {
        Some(s[choose|i: int| 0 <= i < s.len() && #[trigger] s[i].0 == peer].1)
    } else {
        None
    }
}

/// No peer is recorded twice.
pub open spec fn peers_unique(s: Seq<(Seq<char>, u64)>) -> bool {
    forall|i: int, j: int| 0 <= i < j < s.len() ==> #[trigger] s[i].0 != #[trigger] s[j].0
}

/// The table with the value for `peer` replaced by `value`.
pub open spec fn set_value(s: Seq<(Seq<char>, u64)>, peer: Seq<char>, value: u64) -> Seq<
    (Seq<char>, u64),
> {
    s.map_values(|e: (Seq<char>, u64)| if e.0 == peer { (e.0, value) } else { e })
}

/// The values recorded in the table, one per peer.
pub open spec fn values(s: Seq<(Seq<char>, u64)>) -> Seq<u64> {
    s.map_values(|e: (Seq<char>, u64)| e.1)
}

/// A table from peer IDs to log indices, with each peer recorded at most once.
#[derive(Debug, Clone)]
pub struct PeerIndices {
    entries: Vec<(String, u64)>,
}

impl View for PeerIndices {
    type V = Seq<(Seq<char>, u64)>;

    closed spec fn view(&self) -> Seq<(Seq<char>, u64)> {
        self.entries@.map_values(|e: (String, u64)| (e.0@, e.1))
    }
}

impl PeerIndices {
    /// No peer is recorded twice.
    pub open spec fn wf(&self) -> bool {
        peers_unique(self@)
    }

    /// An empty table.
    pub fn new() -> (r: PeerIndices)
        ensures
            r.wf(),
            r@ == Seq::<(Seq<char>, u64)>::empty(),
    {
        let r = PeerIndices { entries: Vec::new() };
        assert(r@ =~= Seq::<(Seq<char>, u64)>::empty());
        r
    }

    fn position(&self, peer: &String) -> (r: Option<usize>)
        ensures
            match r {
                Some(i) => i < self@.len() && self@[i as int].0 == peer@,
                None => !has_peer(self@, peer@),
            },
    {
        let mut i: usize = 0;
        while i < self.entries.len()
            invariant
                0 <= i <= self.entries@.len(),
                forall|k: int| 0 <= k < i ==> #[trigger] self@[k].0 != peer@,
            decreases self.entries@.len() - i,
        {
            if self.entries[i].0 == *peer {
                return Some(i);
            }
            i = i + 1;
        }
        None
    }

    /// The index recorded for `peer`, if any.
    pub fn get(&self, peer: &String) -> (r: Option<u64>)
        requires
            self.wf(),
        ensures
            r == lookup(self@, peer@),
    {
        match self.position(peer) {
            Some(i) => {
                proof {
                    let c = choose|k: int| 0 <= k < self@.len() && #[trigger] self@[k].0 == peer@;
                    assert(c == i as int) by {
                        if c != i as int {
                            if c < i as int {
                                assert(self@[c].0 != self@[i as int].0);
                            } else {
                                assert(self@[i as int].0 != self@[c].0);
                            }
                        }
                    }
                }
                Some(self.entries[i].1)
            },
            None => None,
        }
    }

    /// Record `value` for `peer`, replacing any earlier value.
    pub fn insert(&mut self, peer: String, value: u64)
        requires
            old(self).wf(),
        ensures
            final(self).wf(),
            final(self)@ == if has_peer(old(self)@, peer@) {
                set_value(old(self)@, peer@, value)
            } else {
                old(self)@.push((peer@, value))
            },
    {
        match self.position(&peer) {
            Some(i) => {
                self.entries.set(i, (peer, value));
                proof {
                    assert forall|k: int| 0 <= k < self@.len() && k != i implies self@[k].0 != peer@ by {
                        if k < i {
                            assert(old(self)@[k].0 != old(self)@[i as int].0);
                        } else {
                            assert(old(self)@[i as int].0 != old(self)@[k].0);
                        }
                    }
                    assert(self@ =~= set_value(old(self)@, peer@, value));
                }
            },
            None => {
                self.entries.push((peer, value));
                assert(self@ =~= old(self)@.push((peer@, value)));
            },
        }
    }

    /// Replace the value for a peer that is already recorded.
    fn update(&mut self, peer: &String, value: u64)
        requires
            old(self).wf(),
        ensures
            final(self).wf(),
            final(self)@ == set_value(old(self)@, peer@, value),
    {
        match self.position(peer) {
            Some(i) => {
                self.entries.set(i, (peer.clone(), value));
                proof {
                    assert forall|k: int| 0 <= k < self@.len() && k != i implies self@[k].0 != peer@ by {
                        if k < i {
                            assert(old(self)@[k].0 != old(self)@[i as int].0);
                        } else {
                            assert(old(self)@[i as int].0 != old(self)@[k].0);
                        }
                    }
                    assert(self@ =~= set_value(old(self)@, peer@, value));
                }
            },
            None => {
                assert(set_value(old(self)@, peer@, value) =~= old(self)@);
            },
        }
    }

    /// The recorded values, one per peer, in the table's order.
    pub fn values(&self) -> (r: Vec<u64>)
        ensures
            r@ == values(self@),
    {
        let mut r: Vec<u64> = Vec::new();
        let mut i: usize = 0;
        while i < self.entries.len()
            invariant
                0 <= i <= self.entries@.len(),
                r@ == values(self@).take(i as int),
            decreases self.entries@.len() - i,
        {
            r.push(self.entries[i].1);
            i = i + 1;
            assert(r@ =~= values(self@).take(i as int));
        }
        assert(r@ =~= values(self@));
        r
    }
}

/// After `set_value`, the peer maps to the new value.
pub proof fn lemma_set_value_lookup(s: Seq<(Seq<char>, u64)>, peer: Seq<char>, value: u64, other: Seq<
    char,
>)
    requires
        peers_unique(s),
    ensures
        peers_unique(set_value(s, peer, value)),
        lookup(set_value(s, peer, value), other) == if other == peer && has_peer(s, peer) {
            Some(value)
        } else {
            lookup(s, other)
        },
{
    let t = set_value(s, peer, value);
    assert forall|i: int, j: int| 0 <= i < j < t.len() implies #[trigger] t[i].0 != #[trigger] t[j].0 by {
        assert(t[i].0 == s[i].0);
        assert(t[j].0 == s[j].0);
    }
    if has_peer(s, other) {
        let w = choose|i: int| 0 <= i < s.len() && #[trigger] s[i].0 == other;
        assert(t[w].0 == other);
        let c = choose|i: int| 0 <= i < t.len() && #[trigger] t[i].0 == other;
        assert(c == w) by {
            if c != w {
                if c < w {
                    assert(t[c].0 != t[w].0);
                } else {
                    assert(t[w].0 != t[c].0);
                }
            }
        }
    } else {
        assert forall|i: int| 0 <= i < t.len() implies #[trigger] t[i].0 != other by {
            assert(t[i].0 == s[i].0);
        }
    }
}

/// In a table without repeated peers, the value found for an entry's peer is that entry's value.
pub proof fn lemma_lookup_entry(s: Seq<(Seq<char>, u64)>, i: int)
    requires
        peers_unique(s),
        0 <= i < s.len(),
    ensures
        lookup(s, s[i].0) == Some(s[i].1),
{
    let c = choose|k: int| 0 <= k < s.len() && #[trigger] s[k].0 == s[i].0;
    assert(c == i) by {
        if c != i {
            if c < i {
                assert(s[c].0 != s[i].0);
            } else {
                assert(s[i].0 != s[c].0);
            }
        }
    }
}

// ─── LeaderState ─────────────────────────────────────────────────────────────

/// Whether `peer` is one of the IDs in `peers`.
pub open spec fn lists_peer(peers: Seq<String>, peer: Seq<char>) -> bool {
    exists|i: int| 0 <= i < peers.len() && #[trigger] peers[i]@ == peer
}

/// Per-peer tracking maintained only by the leader.
#[derive(Debug, Clone)]
pub struct LeaderState {
    /// For each peer: the next log index to send to that peer.
    pub next_index: PeerIndices,
    /// For each peer: highest index known to be replicated on that peer.
    pub match_index: PeerIndices,
}

impl LeaderState {
    pub open spec fn wf(&self) -> bool {
        self.next_index.wf() && self.match_index.wf()
    }

    /// Both tables track exactly the given peers.
    pub open spec fn tracks(&self, peers: Seq<String>) -> bool {
        &&& forall|p: Seq<char>| #[trigger] has_peer(self.next_index@, p) <==> lists_peer(peers, p)
        &&& forall|p: Seq<char>| #[trigger] has_peer(self.match_index@, p) <==> lists_peer(peers, p)
    }

    /// The progress a leader starts with: exactly the given peers are tracked,
    /// each with next index `last_log_index + 1` and match index 0.
    pub open spec fn is_fresh(&self, peers: Seq<String>, last_log_index: u64) -> bool {
        &&& self.tracks(peers)
        &&& forall|p: Seq<char>|
            lists_peer(peers, p) ==> #[trigger] lookup(self.next_index@, p) == Some(
                (last_log_index + 1) as u64,
            )
        &&& forall|p: Seq<char>| lists_peer(peers, p) ==> #[trigger] lookup(self.match_index@, p) == Some(
            0u64,
        )
    }

    /// Create fresh leader state after winning an election: every peer's next
    /// index is just past our last entry, and nothing is known to be replicated.
    pub fn new(peers: &[String], last_log_index: u64) -> (r: LeaderState)
        requires
            last_log_index < u64::MAX,
        ensures
            r.wf(),
            r.is_fresh(peers@, last_log_index),
    {
        let mut next_index = PeerIndices::new();
        let mut match_index = PeerIndices::new();
        let mut i: usize = 0;
        while i < peers.len()
            invariant
                0 <= i <= peers@.len(),
                last_log_index < u64::MAX,
                next_index.wf(),
                match_index.wf(),
                forall|p: Seq<char>| #[trigger]
                    has_peer(next_index@, p) <==> lists_peer(peers@.take(i as int), p),
                forall|p: Seq<char>| #[trigger]
                    has_peer(match_index@, p) <==> lists_peer(peers@.take(i as int), p),
                forall|k: int| 0 <= k < next_index@.len() ==> #[trigger] next_index@[k].1 == last_log_index + 1,
                forall|k: int| 0 <= k < match_index@.len() ==> #[trigger] match_index@[k].1 == 0,
            decreases peers@.len() - i,
        {
            let peer = &peers[i];
            let ghost before_next = next_index@;
            let ghost before_match = match_index@;
            next_index.insert(peer.clone(), last_log_index + 1);
            match_index.insert(peer.clone(), 0);
            proof {
                let pre = peers@.take(i as int);
                let post = peers@.take(i as int + 1);
                assert(post =~= pre.push(peers@[i as int]));
                assert forall|p: Seq<char>| #[trigger] lists_peer(post, p) <==> (lists_peer(pre, p) || p
                    == peers@[i as int]@) by {
                    if lists_peer(post, p) {
                        let w = choose|k: int| 0 <= k < post.len() && #[trigger] post[k]@ == p;
                        if w < i {
                            assert(pre[w]@ == p);
                        }
                    }
                    if lists_peer(pre, p) {
                        let w = choose|k: int| 0 <= k < pre.len() && #[trigger] pre[k]@ == p;
                        assert(post[w]@ == p);
                    }
                    if p == peers@[i as int]@ {
                        assert(post[i as int]@ == p);
                    }
                }
                lemma_has_peer_after_insert(before_next, peer@, (last_log_index + 1) as u64, next_index@);
                lemma_has_peer_after_insert(before_match, peer@, 0, match_index@);
            }
            i = i + 1;
        }
        proof {
            assert(peers@.take(peers@.len() as int) =~= peers@);
            assert forall|p: Seq<char>| lists_peer(peers@, p) implies #[trigger] lookup(next_index@, p)
                == Some((last_log_index + 1) as u64) by {
                assert(has_peer(next_index@, p));
                let w = choose|k: int| 0 <= k < next_index@.len() && #[trigger] next_index@[k].0 == p;
                lemma_lookup_entry(next_index@, w);
            }
            assert forall|p: Seq<char>| lists_peer(peers@, p) implies #[trigger] lookup(match_index@, p)
                == Some(0u64) by {
                assert(has_peer(match_index@, p));
                let w = choose|k: int| 0 <= k < match_index@.len() && #[trigger] match_index@[k].0 == p;
                lemma_lookup_entry(match_index@, w);
            }
        }
        LeaderState { next_index, match_index }
    }

    /// After a successful AppendEntries response confirming replication up to
    /// `replicated_index`: the peer's match index becomes the larger of its old
    /// value and `replicated_index`, and its next index becomes
    /// `replicated_index + 1`. Peers this leader does not track are ignored.
    pub fn record_replication(&mut self, peer: &str, replicated_index: u64)
        requires
            old(self).wf(),
            replicated_index < u64::MAX,
        ensures
            final(self).wf(),
            match lookup(old(self).match_index@, peer@) {
                Some(m) => final(self).match_index@ == set_value(
                    old(self).match_index@,
                    peer@,
                    if m < replicated_index { replicated_index } else { m },
                ),
                None => final(self).match_index@ == old(self).match_index@,
            },
            match lookup(old(self).next_index@, peer@) {
                Some(_) => final(self).next_index@ == set_value(
                    old(self).next_index@,
                    peer@,
                    (replicated_index + 1) as u64,
                ),
                None => final(self).next_index@ == old(self).next_index@,
            },
            forall|p: Seq<char>| #[trigger] has_peer(final(self).match_index@, p) == has_peer(
                old(self).match_index@,
                p,
            ),
            forall|p: Seq<char>| #[trigger] has_peer(final(self).next_index@, p) == has_peer(
                old(self).next_index@,
                p,
            ),
            forall|p: Seq<char>| #[trigger] lookup(final(self).match_index@, p) == if p == peer@ {
                match lookup(old(self).match_index@, p) {
                    Some(m) => Some(if m < replicated_index { replicated_index } else { m }),
                    None => None,
                }
            } else {
                lookup(old(self).match_index@, p)
            },
            forall|p: Seq<char>| #[trigger] lookup(final(self).next_index@, p) == if p == peer@ {
                match lookup(old(self).next_index@, p) {
                    Some(_) => Some((replicated_index + 1) as u64),
                    None => None,
                }
            } else {
                lookup(old(self).next_index@, p)
            },
    {
        let ghost old_match = self.match_index@;
        let ghost old_next = self.next_index@;
        let key = peer.to_owned();
        match self.match_index.get(&key) {
            Some(m) => {
                let new_match = if m < replicated_index { replicated_index } else { m };
                self.match_index.update(&key, new_match);
            },
            None => {},
        }
        match self.next_index.get(&key) {
            Some(_) => {
                self.next_index.update(&key, replicated_index + 1);
            },
            None => {},
        }
        proof {
            let m_new = match lookup(old_match, peer@) {
                Some(m) => if m < replicated_index { replicated_index } else { m },
                None => 0u64,
            };
            assert forall|p: Seq<char>| #[trigger] lookup(self.match_index@, p) == if p == peer@ {
                match lookup(old_match, p) {
                    Some(m) => Some(if m < replicated_index { replicated_index } else { m }),
                    None => None,
                }
            } else {
                lookup(old_match, p)
            } by {
                lemma_set_value_lookup(old_match, peer@, m_new, p);
            }
            assert forall|p: Seq<char>| #[trigger] has_peer(self.match_index@, p) == has_peer(old_match, p) by {
                lemma_set_value_lookup(old_match, peer@, m_new, p);
            }
            assert forall|p: Seq<char>| #[trigger] lookup(self.next_index@, p) == if p == peer@ {
                match lookup(old_next, p) {
                    Some(_) => Some((replicated_index + 1) as u64),
                    None => None,
                }
            } else {
                lookup(old_next, p)
            } by {
                lemma_set_value_lookup(old_next, peer@, (replicated_index + 1) as u64, p);
            }
            assert forall|p: Seq<char>| #[trigger] has_peer(self.next_index@, p) == has_peer(old_next, p) by {
                lemma_set_value_lookup(old_next, peer@, (replicated_index + 1) as u64, p);
            }
        }
    }

    /// Move `peer`'s next index back after a rejected AppendEntries.
    ///
    /// With no hint (`conflict_index == 0`) the next index steps back by one;
    /// with a hint it jumps back to `conflict_index` when that is lower. It never
    /// goes below 1. Peers this leader does not track are ignored.
    pub fn record_rejection(&mut self, peer: &str, conflict_index: u64, conflict_term: u64)
        requires
            old(self).wf(),
        ensures
            final(self).wf(),
            final(self).match_index@ == old(self).match_index@,
            match lookup(old(self).next_index@, peer@) {
                Some(n) => final(self).next_index@ == set_value(
                    old(self).next_index@,
                    peer@,
                    rewound_next_index(n, conflict_index),
                ),
                None => final(self).next_index@ == old(self).next_index@,
            },
            forall|p: Seq<char>| #[trigger] has_peer(final(self).next_index@, p) == has_peer(
                old(self).next_index@,
                p,
            ),
            forall|p: Seq<char>| #[trigger] lookup(final(self).next_index@, p) == if p == peer@ {
                match lookup(old(self).next_index@, p) {
                    Some(n) => Some(rewound_next_index(n, conflict_index)),
                    None => None,
                }
            } else {
                lookup(old(self).next_index@, p)
            },
    {
        let ghost old_next = self.next_index@;
        let key = peer.to_owned();
        match self.next_index.get(&key) {
            Some(n) => {
                let back = if n > 1 { n - 1 } else { 1 };
                let target = if conflict_index != 0 && conflict_index < back {
                    if conflict_index > 1 { conflict_index } else { 1 }
                } else {
                    back
                };
                self.next_index.update(&key, target);
            },
            None => {},
        }
        proof {
            let n_new = match lookup(old_next, peer@) {
                Some(n) => rewound_next_index(n, conflict_index),
                None => 0u64,
            };
            assert forall|p: Seq<char>| #[trigger] lookup(self.next_index@, p) == if p == peer@ {
                match lookup(old_next, p) {
                    Some(n) => Some(rewound_next_index(n, conflict_index)),
                    None => None,
                }
            } else {
                lookup(old_next, p)
            } by {
                lemma_set_value_lookup(old_next, peer@, n_new, p);
            }
            assert forall|p: Seq<char>| #[trigger] has_peer(self.next_index@, p) == has_peer(old_next, p) by {
                lemma_set_value_lookup(old_next, peer@, n_new, p);
            }
        }
    }
}

/// The next index after a rejection: one step back (but not below 1), or the
/// follower's hint when it is nonzero and lower still (but not below 1).
pub open spec fn rewound_next_index(next: u64, conflict_index: u64) -> u64 {
    let back: u64 = if next > 1 { (next - 1) as u64 } else { 1 };
    if conflict_index != 0 && conflict_index < back {
        if conflict_index > 1 { conflict_index } else { 1 }
    } else {
        back
    }
}

proof fn lemma_has_peer_after_insert(
    before: Seq<(Seq<char>, u64)>,
    peer: Seq<char>,
    value: u64,
    after: Seq<(Seq<char>, u64)>,
)
    requires
        after == if has_peer(before, peer) {
            set_value(before, peer, value)
        } else {
            before.push((peer, value))
        },
        forall|k: int| 0 <= k < before.len() ==> #[trigger] before[k].1 == value,
    ensures
        forall|p: Seq<char>| #[trigger] has_peer(after, p) <==> (has_peer(before, p) || p == peer),
        forall|k: int| 0 <= k < after.len() ==> #[trigger] after[k].1 == value,
{
    assert forall|p: Seq<char>| #[trigger] has_peer(after, p) <==> (has_peer(before, p) || p == peer) by {
        if has_peer(after, p) {
            let w = choose|k: int| 0 <= k < after.len() && #[trigger] after[k].0 == p;
            if w < before.len() {
                assert(before[w].0 == p);
            }
        }
        if has_peer(before, p) {
            let w = choose|k: int| 0 <= k < before.len() && #[trigger] before[k].0 == p;
            assert(after[w].0 == p);
        }
        if p == peer {
            if has_peer(before, peer) {
                let w = choose|k: int| 0 <= k < before.len() && #[trigger] before[k].0 == peer;
                assert(after[w].0 == p);
            } else {
                assert(after[before.len() as int].0 == p);
            }
        }
    }
}

// ─── RaftState ───────────────────────────────────────────────────────────────

/// Quorum size for a cluster of `cluster_size` nodes: a strict majority.
pub open spec fn quorum_size(cluster_size: int) -> int {
    cluster_size / 2 + 1
}

/// The number of values that are at least `n`.
pub open spec fn count_at_least(vals: Seq<u64>, n: u64) -> nat
    decreases vals.len(),
{
    if vals.len() == 0 {
        0
    } else {
        count_at_least(vals.drop_last(), n) + if vals.last() >= n {
            1nat
        } else {
            0nat
        }
    }
}

/// The replication progress a leader knows of: each peer's match index, and
/// (last) its own last log index.
pub open spec fn replication_values(ls: LeaderState, own_last_index: u64) -> Seq<u64> {
    values(ls.match_index@).push(own_last_index)
}

/// All volatile (in-memory, non-persistent) Raft state for one node.
pub struct RaftState {
    pub node_id: String,
    pub peer_ids: Vec<String>,
    pub role: Role,
    /// Highest log index known to be committed.
    pub commit_index: u64,
    /// Highest log index applied to the state machine.
    pub last_applied: u64,
    pub leader_state: Option<LeaderState>,
    /// ID of the node we believe is the current leader (used for redirects).
    pub current_leader: Option<String>,
    /// Number of votes received in the current election (Candidate only).
    pub votes_received: usize,
}

impl RaftState {
    /// A leader's progress tables are well formed and track exactly this
    /// node's peers.
    pub open spec fn wf(&self) -> bool {
        match self.leader_state {
            Some(ls) => ls.wf() && ls.tracks(self.peer_ids@),
            None => true,
        }
    }

    /// The quorum size of this node's cluster (its peers and itself).
    pub open spec fn spec_quorum(&self) -> int {
        quorum_size(self.peer_ids@.len() + 1int)
    }

    /// Whether index `n` may become the commit index now: we lead, a quorum
    /// holds the entry at `n`, and that entry is from the current term.
    pub open spec fn can_commit(&self, log: RaftLogView, current_term: u64, n: u64) -> bool {
        match self.leader_state {
            Some(ls) => {
                &&& count_at_least(replication_values(ls, log.last_index()), n) >= self.spec_quorum()
                &&& log.term_at(n) == Some(current_term)
            },
            None => false,
        }
    }

    /// A node starts as a follower with nothing committed, applied or voted.
    pub fn new(node_id: String, peer_ids: Vec<String>) -> (r: RaftState)
        ensures
            r.wf(),
            r.node_id == node_id,
            r.peer_ids == peer_ids,
            r.role == Role::Follower,
            r.commit_index == 0,
            r.last_applied == 0,
            r.leader_state is None,
            r.current_leader is None,
            r.votes_received == 0,
    {
        RaftState {
            node_id,
            peer_ids,
            role: Role::Follower,
            commit_index: 0,
            last_applied: 0,
            leader_state: None,
            current_leader: None,
            votes_received: 0,
        }
    }

    /// Quorum size for this cluster (majority of all nodes including self).
    pub fn quorum(&self) -> (r: usize)
        ensures
            r == self.spec_quorum(),
    {
        let n = self.peer_ids.len();
        n / 2 + n % 2 + 1
    }

    /// Whether the votes received reach a quorum (a single-node cluster wins
    /// with its own vote).
    pub fn has_vote_quorum(&self) -> (r: bool)
        ensures
            r == (self.votes_received >= self.spec_quorum()),
    {
        self.votes_received >= self.quorum()
    }

    /// Transition to Follower. Clears leader state and vote tracking.
    pub fn become_follower(&mut self, new_leader: Option<String>)
        ensures
            final(self).role == Role::Follower,
            final(self).leader_state is None,
            final(self).votes_received == 0,
            final(self).current_leader == new_leader,
            final(self).node_id == old(self).node_id,
            final(self).peer_ids == old(self).peer_ids,
            final(self).commit_index == old(self).commit_index,
            final(self).last_applied == old(self).last_applied,
    {
        self.role = Role::Follower;
        self.leader_state = None;
        self.votes_received = 0;
        self.current_leader = new_leader;
    }

    /// Transition to Candidate: we vote for ourselves and forget the leader.
    /// (The caller increments and persists the current term.)
    pub fn become_candidate(&mut self)
        ensures
            final(self).role == Role::Candidate,
            final(self).votes_received == 1,
            final(self).current_leader is None,
            final(self).leader_state == old(self).leader_state,
            final(self).node_id == old(self).node_id,
            final(self).peer_ids == old(self).peer_ids,
            final(self).commit_index == old(self).commit_index,
            final(self).last_applied == old(self).last_applied,
    {
        self.role = Role::Candidate;
        self.votes_received = 1;
        self.current_leader = None;
    }

    /// Transition to Leader after winning an election, with fresh per-peer progress.
    pub fn become_leader(&mut self, last_log_index: u64)
        requires
            last_log_index < u64::MAX,
        ensures
            final(self).wf(),
            final(self).role == Role::Leader,
            final(self).current_leader == Some(old(self).node_id),
            final(self).leader_state matches Some(ls) && ls.is_fresh(old(self).peer_ids@, last_log_index),
            final(self).votes_received == old(self).votes_received,
            final(self).node_id == old(self).node_id,
            final(self).peer_ids == old(self).peer_ids,
            final(self).commit_index == old(self).commit_index,
            final(self).last_applied == old(self).last_applied,
    {
        self.role = Role::Leader;
        self.current_leader = Some(self.node_id.clone());
        let ls = LeaderState::new(self.peer_ids.as_slice(), last_log_index);
        self.leader_state = Some(ls);
    }

    /// The highest index the leader may commit: the greatest `N` above the
    /// current commit index such that a quorum (counting our own last log
    /// index) has replicated up to `N` and our entry at `N` is from
    /// `current_term`; the current commit index when there is none, or when
    /// we are not leading. The state itself is left unchanged; the caller
    /// stores the result.
    pub fn maybe_advance_commit(&mut self, current_term: u64, log: &RaftLog) -> (r: u64)
        requires
            old(self).wf(),
            log.wf(),
        ensures
            *final(self) == *old(self),
            r >= old(self).commit_index,
            r == old(self).commit_index || old(self).can_commit(log@, current_term, r),
            forall|n: u64| r < n ==> !old(self).can_commit(log@, current_term, n),
            r > old(self).commit_index ==> {
                &&& log@.term_at(r) == Some(current_term)
                &&& old(self).leader_state is Some
                &&& 2 * count_at_least(
                    replication_values(old(self).leader_state->0, log@.last_index()),
                    r,
                ) > old(self).peer_ids@.len() + 1
                &&& 2 * (peers_holding(old(self).leader_state->0, old(self).peer_ids@, r).len() + if log@.last_index() >= r {
                    1int
                } else {
                    0int
                }) > old(self).peer_ids@.len() + 1
            },
    {
        let commit = self.commit_index;
        let q = self.quorum();
        let own = log.last_index();
        let vals = match &self.leader_state {
            Some(ls) => ls.match_index.values(),
            None => {
                return commit;
            },
        };
        let ghost ls = self.leader_state->0;
        let mut n = own;
        while n > commit
            invariant
                self.wf(),
                self.leader_state == Some(ls),
                vals@ == values(ls.match_index@),
                own == log@.last_index(),
                log.wf(),
                q == self.spec_quorum(),
                commit == self.commit_index,
                n <= own,
                forall|m: u64| n < m ==> !self.can_commit(log@, current_term, m),
            decreases n,
        {
            let t = log.term_at(n);
            let same_term = match t {
                Some(t) => t == current_term,
                None => false,
            };
            if same_term {
                let c = count_at_least_in(&vals, n);
                assert(vals@.push(own).drop_last() =~= vals@);
                let enough = if own >= n {
                    c >= q - 1
                } else {
                    c >= q
                };
                if enough {
                    proof {
                        assert(self.can_commit(log@, current_term, n));
                        lemma_commit_needs_majority(*self, log@, current_term, n);
                        lemma_commit_held_by_majority(*self, log@, current_term, n);
                    }
                    return n;
                }
            }
            n = n - 1;
        }
        commit
    }
}

/// A leader commits an index only when a strict majority of the whole cluster
/// (its peers and itself) holds it: more than half of the cluster's nodes have
/// replicated up to that index. In a cluster of two nodes the leader never
/// commits alone, and in a cluster of four it needs three.
pub proof fn lemma_commit_needs_majority(s: RaftState, log: RaftLogView, current_term: u64, n: u64)
    requires
        s.can_commit(log, current_term, n),
    ensures
        s.leader_state is Some,
        2 * count_at_least(replication_values(s.leader_state->0, log.last_index()), n) > s.peer_ids@.len()
            + 1,
{
    let c = count_at_least(replication_values(s.leader_state->0, log.last_index()), n);
    let size = s.peer_ids@.len() + 1;
    assert(c >= size / 2 + 1);
    assert(2 * (size / 2) + size % 2 == size);
}

/// The peers whose match index in the leader's table has reached `n`.
pub open spec fn peers_holding(ls: LeaderState, peers: Seq<String>, n: u64) -> Set<Seq<char>> {
    Set::new(
        |p: Seq<char>|
            lists_peer(peers, p) && match lookup(ls.match_index@, p) {
                Some(m) => m >= n,
                None => false,
            },
    )
}

/// The peers recorded in a table with a value of at least `n`.
spec fn recorded_at_least(s: Seq<(Seq<char>, u64)>, n: u64) -> Set<Seq<char>> {
    Set::new(|p: Seq<char>| exists|i: int| 0 <= i < s.len() && s[i].0 == p && #[trigger] s[i].1 >= n)
}

proof fn lemma_recorded_at_least_count(s: Seq<(Seq<char>, u64)>, n: u64)
    requires
        peers_unique(s),
    ensures
        recorded_at_least(s, n).finite(),
        recorded_at_least(s, n).len() == count_at_least(values(s), n),
    decreases s.len(),
{
    let r = recorded_at_least(s, n);
    if s.len() == 0 {
        assert(r =~= Set::<Seq<char>>::empty());
    } else {
        let k = s.len() - 1;
        let t = s.drop_last();
        assert(peers_unique(t)) by {
            assert forall|i: int, j: int| 0 <= i < j < t.len() implies #[trigger] t[i].0 != #[trigger] t[j].0 by {
                assert(t[i] == s[i] && t[j] == s[j]);
            }
        }
        lemma_recorded_at_least_count(t, n);
        let rt = recorded_at_least(t, n);
        assert(values(s).drop_last() =~= values(t));
        assert(values(s).last() == s[k].1);
        if s[k].1 >= n {
            assert(r =~= rt.insert(s[k].0)) by {
                assert forall|p: Seq<char>| r.contains(p) implies rt.insert(s[k].0).contains(p) by {
                    let i = choose|i: int| 0 <= i < s.len() && s[i].0 == p && #[trigger] s[i].1 >= n;
                    if i < k {
                        assert(t[i] == s[i]);
                    }
                }
                assert forall|p: Seq<char>| rt.insert(s[k].0).contains(p) implies r.contains(p) by {
                    if p != s[k].0 {
                        let i = choose|i: int| 0 <= i < t.len() && t[i].0 == p && #[trigger] t[i].1 >= n;
                        assert(t[i] == s[i]);
                    }
                }
            }
            assert(!rt.contains(s[k].0)) by {
                if rt.contains(s[k].0) {
                    let i = choose|i: int| 0 <= i < t.len() && t[i].0 == s[k].0 && #[trigger] t[i].1 >= n;
                    assert(t[i] == s[i]);
                    assert(s[i].0 != s[k].0);
                }
            }
        } else {
            assert(r =~= rt) by {
                assert forall|p: Seq<char>| r.contains(p) implies rt.contains(p) by {
                    let i = choose|i: int| 0 <= i < s.len() && s[i].0 == p && #[trigger] s[i].1 >= n;
                    assert(i < k);
                    assert(t[i] == s[i]);
                }
                assert forall|p: Seq<char>| rt.contains(p) implies r.contains(p) by {
                    let i = choose|i: int| 0 <= i < t.len() && t[i].0 == p && #[trigger] t[i].1 >= n;
                    assert(t[i] == s[i]);
                }
            }
        }
    }
}

/// A committed index is held by a strict majority of the cluster's nodes: the
/// peers whose match index has reached it, together with the leader when its
/// own log reaches it, are more than half of the leader and its peers.
pub proof fn lemma_commit_held_by_majority(s: RaftState, log: RaftLogView, current_term: u64, n: u64)
    requires
        s.wf(),
        s.can_commit(log, current_term, n),
    ensures
        s.leader_state is Some,
        peers_holding(s.leader_state->0, s.peer_ids@, n).finite(),
        2 * (peers_holding(s.leader_state->0, s.peer_ids@, n).len() + if log.last_index() >= n {
            1int
        } else {
            0int
        }) > s.peer_ids@.len() + 1,
{
    let ls = s.leader_state->0;
    let t = ls.match_index@;
    let h = peers_holding(ls, s.peer_ids@, n);
    lemma_recorded_at_least_count(t, n);
    assert(h =~= recorded_at_least(t, n)) by {
        assert forall|p: Seq<char>| h.contains(p) implies recorded_at_least(t, n).contains(p) by {
            assert(has_peer(t, p));
            let i = choose|i: int| 0 <= i < t.len() && #[trigger] t[i].0 == p;
            lemma_lookup_entry(t, i);
            assert(t[i].1 >= n);
        }
        assert forall|p: Seq<char>| recorded_at_least(t, n).contains(p) implies h.contains(p) by {
            let i = choose|i: int| 0 <= i < t.len() && t[i].0 == p && #[trigger] t[i].1 >= n;
            assert(has_peer(t, p));
            lemma_lookup_entry(t, i);
        }
    }
    let vals = replication_values(ls, log.last_index());
    assert(vals.drop_last() =~= values(t));
    lemma_commit_needs_majority(s, log, current_term, n);
}

/// How many of `vals` are at least `n`.
fn count_at_least_in(vals: &Vec<u64>, n: u64) -> (c: usize)
    ensures
        c == count_at_least(vals@, n),
{
    let mut c: usize = 0;
    let mut i: usize = 0;
    while i < vals.len()
        invariant
            0 <= i <= vals@.len(),
            c <= i,
            c == count_at_least(vals@.take(i as int), n),
        decreases vals@.len() - i,
    {
        assert(vals@.take(i as int + 1).drop_last() =~= vals@.take(i as int));
        if vals[i] >= n {
            c = c + 1;
        }
        i = i + 1;
    }
    assert(vals@.take(vals@.len() as int) =~= vals@);
    c
}

/// Any two quorums of the same cluster share a member: two sets of nodes,
/// each at least a quorum of the cluster, cannot be disjoint. This is why at
/// most one leader can be elected per term and why a committed entry survives
/// into every later quorum.
pub proof fn lemma_quorums_intersect<T>(cluster: Set<T>, a: Set<T>, b: Set<T>)
    requires
        cluster.finite(),
        a.subset_of(cluster),
        b.subset_of(cluster),
        a.len() >= quorum_size(cluster.len() as int),
        b.len() >= quorum_size(cluster.len() as int),
    ensures
        exists|x: T| a.contains(x) && b.contains(x),
{
    vstd::set_lib::lemma_len_subset(a, cluster);
    vstd::set_lib::lemma_len_subset(b, cluster);
    vstd::set_lib::lemma_len_subset(a + b, cluster);
    vstd::set_lib::lemma_set_intersect_union_lens(a, b);
    assert(a.intersect(b).len() > 0);
    let x = a.intersect(b).choose();
    vstd::set_lib::lemma_set_empty_equivalency_len(a.intersect(b));
    assert(a.intersect(b).contains(x));
}

} // verus!
