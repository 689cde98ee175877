use raftkv::config::{ClusterConfig, PeerConfig};
use raftkv::raft::state::RaftState;
use raftkv::server::{find_peer_address, get_leader, peer_ids, peer_url, redirect_if_not_leader};

fn cluster() -> ClusterConfig {
    ClusterConfig {
        peers: vec![
            PeerConfig { id: "n2".into(), address: "n2:7001".into() },
            PeerConfig { id: "n3".into(), address: "n3:7001".into() },
        ],
    }
}

#[test]
fn peers_are_found_by_id() {
    let c = cluster();
    assert_eq!(find_peer_address(&c.peers, &"n3".to_string()).as_deref(), Some("n3:7001"));
    assert!(find_peer_address(&c.peers, &"n9".to_string()).is_none());
    assert_eq!(peer_url(&c, &"n2".to_string()).as_deref(), Some("http://n2:7001"));
    assert!(peer_url(&c, &"n9".to_string()).is_none());
    assert_eq!(peer_ids(&c), vec!["n2".to_string(), "n3".to_string()]);
}

#[test]
fn non_leaders_redirect_to_the_leader() {
    let c = cluster();
    let mut s = RaftState::new("n1".into(), peer_ids(&c));
    assert_eq!(redirect_if_not_leader(&s, &c).as_deref(), Some(""));
    assert_eq!(get_leader(&s, &c), (String::new(), String::new()));
    s.become_follower(Some("n3".into()));
    assert_eq!(redirect_if_not_leader(&s, &c).as_deref(), Some("n3:7001"));
    assert_eq!(get_leader(&s, &c), ("n3".to_string(), "n3:7001".to_string()));
    s.become_leader(0);
    assert!(redirect_if_not_leader(&s, &c).is_none());
    // We lead, but are not one of our own peers: no address.
    assert_eq!(get_leader(&s, &c), ("n1".to_string(), String::new()));
}
