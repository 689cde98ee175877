//! Dynamic cluster membership, one server at a time.
//!
//! Adding or removing a single node cannot create two disjoint majorities,
//! so a change can go straight from the old configuration to the new one.
//! Only one change may be in flight: it is proposed (staged as pending),
//! replicated as a log entry, and takes effect when committed.
use vstd::prelude::*;

verus! {

broadcast use vstd::seq_lib::group_seq_properties;

/// The IDs of a list of node IDs, as a sequence of character strings.
pub open spec fn ids(s: Seq<String>) -> Seq<Seq<char>> {
    s.map_values(|x: String| x@)
}

/// A cluster configuration: the set of node IDs in the cluster.
#[derive(Debug, Clone)]
pub struct MemberConfig {
    /// The node IDs currently in the cluster, each listed once.
    pub members: Vec<String>,
}

impl MemberConfig {
    /// The members as a set.
    pub open spec fn member_set(&self) -> Set<Seq<char>> {
        ids(self.members@).to_set()
    }

    /// No ID is listed twice.
    pub open spec fn wf(&self) -> bool {
        ids(self.members@).no_duplicates()
    }

    /// Whether `id` is a member.
    pub fn contains(&self, id: &String) -> (r: bool)
        ensures
            r == self.member_set().contains(id@),
    {
        let mut i: usize = 0;
        while i < self.members.len()
            invariant
                0 <= i <= self.members@.len(),
                forall|k: int| 0 <= k < i ==> #[trigger] self.members@[k]@ != id@,
            decreases self.members@.len() - i,
        {
            if self.members[i] == *id {
                assert(ids(self.members@)[i as int] == id@);
                return true;
            }
            i = i + 1;
        }
        proof {
            if self.member_set().contains(id@) {
                let k = choose|k: int| 0 <= k < ids(self.members@).len() && ids(self.members@)[k] == id@;
                assert(self.members@[k]@ == id@);
            }
        }
        false
    }

    /// The number of members.
    pub fn len(&self) -> (r: usize)
        requires
            self.wf(),
        ensures
            r == self.member_set().len(),
    {
        proof {
            ids(self.members@).unique_seq_to_set();
        }
        self.members.len()
    }

    /// Whether both configurations have the same members (in any order).
    pub fn same_members(&self, other: &MemberConfig) -> (r: bool)
        requires
            self.wf(),
            other.wf(),
        ensures
            r == (self.member_set() == other.member_set()),
    {
        proof {
            ids(self.members@).unique_seq_to_set();
            ids(other.members@).unique_seq_to_set();
        }
        if self.members.len() != other.members.len() {
            return false;
        }
        let mut i: usize = 0;
        while i < self.members.len()
            invariant
                0 <= i <= self.members@.len(),
                forall|k: int| 0 <= k < i ==> #[trigger] other.member_set().contains(
                    self.members@[k]@,
                ),
            decreases self.members@.len() - i,
        {
            if !other.contains(&self.members[i]) {
                proof {
                    assert(self.member_set().contains(self.members@[i as int]@)) by {
                        assert(ids(self.members@)[i as int] == self.members@[i as int]@);
                    }
                }
                return false;
            }
            i = i + 1;
        }
        proof {
            assert(self.member_set().subset_of(other.member_set())) by {
                assert forall|x: Seq<char>| self.member_set().contains(x) implies other.member_set().contains(
                    x,
                ) by {
                    let k = choose|k: int| 0 <= k < ids(self.members@).len() && ids(self.members@)[k]
                        == x;
                    assert(self.members@[k]@ == x);
                }
            }
            vstd::set_lib::lemma_subset_equality(self.member_set(), other.member_set());
        }
        true
    }

    /// A copy of this configuration.
    pub fn duplicate(&self) -> (r: MemberConfig)
        ensures
            r.members@ == self.members@,
    {
        let mut members: Vec<String> = Vec::new();
        let mut i: usize = 0;
        while i < self.members.len()
            invariant
                0 <= i <= self.members@.len(),
                members@ == self.members@.take(i as int),
            decreases self.members@.len() - i,
        {
            members.push(self.members[i].clone());
            i = i + 1;
            assert(members@ =~= self.members@.take(i as int));
        }
        assert(self.members@.take(self.members@.len() as int) =~= self.members@);
        MemberConfig { members }
    }

    /// This configuration with `id` added; `id` must not be a member.
    fn with_member(&self, id: String) -> (r: MemberConfig)
        requires
            self.wf(),
            !self.member_set().contains(id@),
        ensures
            r.wf(),
            r.member_set() == self.member_set().insert(id@),
    {
        let mut r = self.duplicate();
        let ghost old_ids = ids(r.members@);
        r.members.push(id);
        proof {
            assert(ids(r.members@) =~= old_ids.push(id@));
            lemma_push_to_set(old_ids, id@);
        }
        r
    }

    /// This configuration with `id` removed; `id` must be a member.
    fn without_member(&self, id: &String) -> (r: MemberConfig)
        requires
            self.wf(),
        ensures
            r.wf(),
            r.member_set() == self.member_set().remove(id@),
    {
        let mut members: Vec<String> = Vec::new();
        let mut i: usize = 0;
        while i < self.members.len()
            invariant
                0 <= i <= self.members@.len(),
                self.wf(),
                ids(members@).no_duplicates(),
                forall|x: Seq<char>| #[trigger]
                    ids(members@).contains(x) <==> (ids(self.members@.take(i as int)).contains(x) && x
                        != id@),
            decreases self.members@.len() - i,
        {
            let ghost before = members@;
            proof {
                assert(ids(self.members@.take(i as int + 1)) =~= ids(self.members@.take(i as int)).push(
                    self.members@[i as int]@,
                ));
            }
            if self.members[i] != *id {
                members.push(self.members[i].clone());
                proof {
                    assert(ids(members@) =~= ids(before).push(self.members@[i as int]@));
                    assert(!ids(before).contains(self.members@[i as int]@)) by {
                        if ids(before).contains(self.members@[i as int]@) {
                            let k = choose|k: int| 0 <= k < i && ids(self.members@.take(i as int))[k]
                                == self.members@[i as int]@;
                            assert(ids(self.members@).take(i as int) =~= ids(self.members@.take(i as int)));
                            assert(ids(self.members@)[k] == ids(self.members@)[i as int]);
                        }
                    }
                }
            }
            i = i + 1;
        }
        let r = MemberConfig { members };
        proof {
            assert(self.members@.take(self.members@.len() as int) =~= self.members@);
            assert(r.member_set() =~= self.member_set().remove(id@));
        }
        r
    }
}

proof fn lemma_push_to_set(s: Seq<Seq<char>>, x: Seq<char>)
    requires
        s.no_duplicates(),
        !s.to_set().contains(x),
    ensures
        s.push(x).no_duplicates(),
        s.push(x).to_set() == s.to_set().insert(x),
{
    assert(!s.contains(x));
    assert(s.push(x).to_set() =~= s.to_set().insert(x));
}

/// Exactly one node differs between the two configurations: `b` is `a` with
/// one new node added, or with one member removed.
pub open spec fn single_change(a: Set<Seq<char>>, b: Set<Seq<char>>) -> bool {
    exists|x: Seq<char>|
        (!a.contains(x) && b == a.insert(x)) || (a.contains(x) && b == a.remove(x))
}

/// A proposed membership change, as carried in a log entry.
#[derive(Debug, Clone)]
pub enum MembershipChange {
    /// Add a new node with the given ID and gRPC address.
    AddNode { id: String, address: String },
    /// Remove a node by ID. The node should step down gracefully first.
    RemoveNode { id: String },
}

/// Why a membership change was refused.
#[derive(Debug, Clone, Copy, PartialEq, Eq, Structural)]
pub enum MembershipError {
    /// Another change is already pending.
    ChangeInProgress,
    /// The node to add is already a member.
    AlreadyMember,
    /// The node to remove is not a member.
    NotAMember,
    /// Removing the node would leave the cluster with no members.
    LastMember,
}

/// The committed cluster configuration and the change in flight, if any.
pub struct MembershipManager {
    /// The committed cluster configuration.
    pub committed: MemberConfig,
    /// A pending (proposed but not yet committed) configuration change, if any.
    /// Only one change may be in flight at a time.
    pub pending: Option<MemberConfig>,
}

impl MembershipManager {
    /// Both configurations list each member once, and a pending configuration
    /// differs from the committed one by a single node.
    pub open spec fn wf(&self) -> bool {
        &&& self.committed.wf()
        &&& match self.pending {
            Some(p) => p.wf() && single_change(self.committed.member_set(), p.member_set()),
            None => true,
        }
    }

    /// The configuration quorums are counted in.
    pub open spec fn active(&self) -> MemberConfig {
        match self.pending {
            Some(p) => p,
            None => self.committed,
        }
    }

    /// Start with the given members committed and no change pending.
    pub fn new(initial_members: Vec<String>) -> (r: MembershipManager)
        ensures
            r.wf(),
            r.committed.member_set() == ids(initial_members@).to_set(),
            r.pending is None,
    {
        let mut committed = MemberConfig { members: Vec::new() };
        let mut i: usize = 0;
        assert(ids(committed.members@) =~= Seq::<Seq<char>>::empty());
        while i < initial_members.len()
            invariant
                0 <= i <= initial_members@.len(),
                committed.wf(),
                committed.member_set() == ids(initial_members@.take(i as int)).to_set(),
            decreases initial_members@.len() - i,
        {
            let id = initial_members[i].clone();
            assert(ids(initial_members@.take(i as int + 1)) =~= ids(initial_members@.take(i as int)).push(
                id@,
            ));
            if !committed.contains(&id) {
                committed = committed.with_member(id);
            }
            i = i + 1;
        }
        assert(initial_members@.take(initial_members@.len() as int) =~= initial_members@);
        MembershipManager { committed, pending: None }
    }

    /// Propose adding a new node: refused while another change is pending or
    /// when the node is already a member; otherwise the committed
    /// configuration plus the node is staged as pending and returned.
    pub fn propose_add(&mut self, id: &str) -> (r: Result<MemberConfig, MembershipError>)
        requires
            old(self).wf(),
        ensures
            final(self).wf(),
            old(self).pending is Some ==> r == Err::<MemberConfig, MembershipError>(
                MembershipError::ChangeInProgress,
            ) && *final(self) == *old(self),
            old(self).pending is None && old(self).committed.member_set().contains(id@) ==> r
                == Err::<MemberConfig, MembershipError>(MembershipError::AlreadyMember)
                && *final(self) == *old(self),
            old(self).pending is None && !old(self).committed.member_set().contains(id@) ==> {
                &&& final(self).committed == old(self).committed
                &&& final(self).pending matches Some(p) && p.member_set()
                    == old(self).committed.member_set().insert(id@)
                &&& r matches Ok(c) && c.members@ == final(self).pending->0.members@
            },
    {
        if self.pending.is_some() {
            return Err(MembershipError::ChangeInProgress);
        }
        let key = id.to_owned();
        if self.committed.contains(&key) {
            return Err(MembershipError::AlreadyMember);
        }
        let next = self.committed.with_member(key);
        let out = next.duplicate();
        self.pending = Some(next);
        Ok(out)
    }

    /// Propose removing a node: refused while another change is pending, when
    /// the node is not a member, or when it is the last member; otherwise the
    /// committed configuration without the node is staged and returned.
    pub fn propose_remove(&mut self, id: &str) -> (r: Result<MemberConfig, MembershipError>)
        requires
            old(self).wf(),
        ensures
            final(self).wf(),
            old(self).pending is Some ==> r == Err::<MemberConfig, MembershipError>(
                MembershipError::ChangeInProgress,
            ) && *final(self) == *old(self),
            old(self).pending is None && !old(self).committed.member_set().contains(id@) ==> r
                == Err::<MemberConfig, MembershipError>(MembershipError::NotAMember)
                && *final(self) == *old(self),
            old(self).pending is None && old(self).committed.member_set().contains(id@)
                && old(self).committed.member_set().len() <= 1 ==> r == Err::<
                MemberConfig,
                MembershipError,
            >(MembershipError::LastMember) && *final(self) == *old(self),
            old(self).pending is None && old(self).committed.member_set().contains(id@)
                && old(self).committed.member_set().len() > 1 ==> {
                &&& final(self).committed == old(self).committed
                &&& final(self).pending matches Some(p) && p.member_set()
                    == old(self).committed.member_set().remove(id@)
                &&& r matches Ok(c) && c.members@ == final(self).pending->0.members@
            },
    {
        if self.pending.is_some() {
            return Err(MembershipError::ChangeInProgress);
        }
        let key = id.to_owned();
        if !self.committed.contains(&key) {
            return Err(MembershipError::NotAMember);
        }
        if self.committed.len() <= 1 {
            return Err(MembershipError::LastMember);
        }
        let next = self.committed.without_member(&key);
        let out = next.duplicate();
        self.pending = Some(next);
        Ok(out)
    }

    /// Called when the membership change log entry is committed: the pending
    /// configuration becomes the committed one.
    pub fn commit_pending(&mut self)
        requires
            old(self).wf(),
        ensures
            final(self).wf(),
            final(self).pending is None,
            final(self).committed == match old(self).pending {
                Some(p) => p,
                None => old(self).committed,
            },
    {
        if let Some(pending) = self.pending.take() {
            self.committed = pending;
        }
    }

    /// The active config for quorum calculation: the pending one if there is
    /// a change in flight, else the committed one.
    pub fn active_config(&self) -> (r: &MemberConfig)
        ensures
            *r == self.active(),
    {
        match &self.pending {
            Some(p) => p,
            None => &self.committed,
        }
    }

    /// Quorum size for the active config: a strict majority of its members.
    pub fn quorum(&self) -> (r: usize)
        requires
            self.wf(),
        ensures
            r == self.active().member_set().len() / 2 + 1,
    {
        let n = self.active_config().len();
        n / 2 + 1
    }
}

/// With single-server changes, a majority of the old configuration and a
/// majority of the new one always share a node, so the two configurations
/// can never elect two leaders or commit conflicting entries independently.
pub proof fn lemma_single_change_majorities_intersect(
    old_members: Set<Seq<char>>,
    new_members: Set<Seq<char>>,
    a: Set<Seq<char>>,
    b: Set<Seq<char>>,
)
    requires
        old_members.finite(),
        single_change(old_members, new_members),
        a.subset_of(old_members),
        b.subset_of(new_members),
        a.len() >= old_members.len() / 2 + 1,
        b.len() >= new_members.len() / 2 + 1,
    ensures
        exists|x: Seq<char>| a.contains(x) && b.contains(x),
{
    let x = choose|x: Seq<char>|
        (!old_members.contains(x) && new_members == old_members.insert(x)) || (old_members.contains(x) && new_members == old_members.remove(x));
    let whole = old_members + new_members;
    vstd::set_lib::lemma_set_union_finite_iff(old_members, new_members);
    if !old_members.contains(x) && new_members == old_members.insert(x) {
        assert(whole =~= new_members);
    } else {
        assert(whole =~= old_members);
    }
    vstd::set_lib::lemma_len_subset(a, whole);
    vstd::set_lib::lemma_len_subset(b, whole);
    vstd::set_lib::lemma_len_subset(a + b, whole);
    vstd::set_lib::lemma_set_intersect_union_lens(a, b);
    assert(a.intersect(b).len() > 0);
    let y = a.intersect(b).choose();
    vstd::set_lib::lemma_set_empty_equivalency_len(a.intersect(b));
    assert(a.intersect(b).contains(y));
}

} // verus!
