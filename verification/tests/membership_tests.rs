use raftkv::membership::{MembershipError, MembershipManager};

fn ids(names: &[&str]) -> Vec<String> {
    names.iter().map(|s| s.to_string()).collect()
}

fn sorted(v: &[String]) -> Vec<String> {
    let mut v = v.to_vec();
    v.sort();
    v
}

#[test]
fn new_manager_dedups_members() {
    let m = MembershipManager::new(ids(&["a", "b", "a"]));
    assert_eq!(sorted(&m.committed.members), ids(&["a", "b"]));
    assert!(m.pending.is_none());
    assert_eq!(m.quorum(), 2);
}

#[test]
fn add_then_commit() {
    let mut m = MembershipManager::new(ids(&["a", "b", "c"]));
    let staged = m.propose_add("d").unwrap();
    assert_eq!(sorted(&staged.members), ids(&["a", "b", "c", "d"]));
    // While a change is pending, quorum counts the pending configuration.
    assert_eq!(m.active_config().members.len(), 4);
    assert_eq!(m.quorum(), 3);
    // Only one change at a time.
    assert_eq!(m.propose_add("e").unwrap_err(), MembershipError::ChangeInProgress);
    assert_eq!(m.propose_remove("a").unwrap_err(), MembershipError::ChangeInProgress);
    m.commit_pending();
    assert!(m.pending.is_none());
    assert_eq!(sorted(&m.committed.members), ids(&["a", "b", "c", "d"]));
    assert_eq!(m.propose_add("a").unwrap_err(), MembershipError::AlreadyMember);
}

#[test]
fn remove_then_commit() {
    let mut m = MembershipManager::new(ids(&["a", "b", "c"]));
    assert_eq!(m.propose_remove("z").unwrap_err(), MembershipError::NotAMember);
    let staged = m.propose_remove("b").unwrap();
    assert_eq!(sorted(&staged.members), ids(&["a", "c"]));
    m.commit_pending();
    assert_eq!(sorted(&m.committed.members), ids(&["a", "c"]));
    assert_eq!(m.quorum(), 2);
    // Committing with nothing pending changes nothing.
    m.commit_pending();
    assert_eq!(m.committed.members.len(), 2);
}

#[test]
fn last_member_cannot_be_removed() {
    let mut m = MembershipManager::new(ids(&["solo"]));
    assert_eq!(m.propose_remove("solo").unwrap_err(), MembershipError::LastMember);
    assert_eq!(m.quorum(), 1);
}

#[test]
fn old_and_new_majorities_overlap_after_one_change() {
    // 3 nodes -> 4 nodes: majorities of 2 and 3 among 4 distinct nodes overlap.
    let mut m = MembershipManager::new(ids(&["a", "b", "c"]));
    let old_q = m.quorum();
    m.propose_add("d").unwrap();
    let new_q = m.quorum();
    assert_eq!((old_q, new_q), (2, 3));
    assert!(old_q + new_q > 4);
}

#[test]
fn configurations_compare_as_sets() {
    let a = MembershipManager::new(ids(&["x", "y", "z"])).committed;
    let b = MembershipManager::new(ids(&["z", "x", "y", "x"])).committed;
    let c = MembershipManager::new(ids(&["x", "y"])).committed;
    let d = MembershipManager::new(ids(&["x", "y", "w"])).committed;
    assert!(a.same_members(&b));
    assert!(!a.same_members(&c));
    assert!(!a.same_members(&d));
    assert!(a.contains(&"y".to_string()));
    assert!(!a.contains(&"w".to_string()));
    assert_eq!(b.len(), 3);
}
