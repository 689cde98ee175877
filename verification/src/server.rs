//! Routing decisions of the client-facing service: only the leader serves
//! reads and writes, and other nodes point clients at the leader's address.
use crate::config::{ClusterConfig, PeerConfig};
use crate::raft::state::{RaftState, Role};
use vstd::prelude::*;

verus! {

/// The address of the first peer with this ID, if any.
pub open spec fn peer_address(peers: Seq<PeerConfig>, id: Seq<char>) -> Option<Seq<char>>
    decreases peers.len(),
{
    if peers.len() == 0 {
        None
    } else if peers[0].id@ == id {
        Some(peers[0].address@)
    } else {
        peer_address(peers.drop_first(), id)
    }
}

/// The text of an optional string, or the empty text.
pub open spec fn or_empty(s: Option<Seq<char>>) -> Seq<char> {
    match s {
        Some(t) => t,
        None => Seq::empty(),
    }
}

/// Look up the address of the peer with this ID.
pub fn find_peer_address(peers: &Vec<PeerConfig>, id: &String) -> (r: Option<String>)
    ensures
        match r {
            Some(a) => peer_address(peers@, id@) == Some(a@),
            None => peer_address(peers@, id@) is None,
        },
{
    let mut i: usize = 0;
    assert(peers@.skip(0) =~= peers@);
    while i < peers.len()
        invariant
            0 <= i <= peers@.len(),
            peer_address(peers@, id@) == peer_address(peers@.skip(i as int), id@),
        decreases peers@.len() - i,
    {
        assert(peers@.skip(i as int).drop_first() =~= peers@.skip(i as int + 1));
        if peers[i].id == *id {
            return Some(peers[i].address.clone());
        }
        i = i + 1;
    }
    None
}

/// Where to send a client when this node is not the leader: the address of
/// the leader we know of (empty when we know of none, or it is not a peer).
/// Nothing when we are the leader.
pub fn redirect_if_not_leader(state: &RaftState, cluster: &ClusterConfig) -> (r: Option<String>)
    ensures
        state.role == Role::Leader ==> r is None,
        state.role != Role::Leader ==> (r matches Some(a) && a@ == or_empty(
            match state.current_leader {
                Some(id) => peer_address(cluster.peers@, id@),
                None => None,
            },
        )),
{
    if state.role != Role::Leader {
        let addr = match &state.current_leader {
            Some(id) => match find_peer_address(&cluster.peers, id) {
                Some(a) => a,
                None => String::new(),
            },
            None => String::new(),
        };
        Some(addr)
    } else {
        None
    }
}

/// The leader we know of, by ID and address: the ID is empty when we know of
/// no leader, and the address is that of the peer with this ID (empty when
/// there is none).
pub fn get_leader(state: &RaftState, cluster: &ClusterConfig) -> (r: (String, String))
    ensures
        r.0@ == or_empty(
            match state.current_leader {
                Some(id) => Some(id@),
                None => None,
            },
        ),
        r.1@ == or_empty(peer_address(cluster.peers@, r.0@)),
{
    let leader_id = match &state.current_leader {
        Some(id) => id.clone(),
        None => String::new(),
    };
    let leader_address = match find_peer_address(&cluster.peers, &leader_id) {
        Some(a) => a,
        None => String::new(),
    };
    (leader_id, leader_address)
}

/// The URL to open a connection to a peer: `http://` and its address, or
/// nothing for an unknown peer.
pub fn peer_url(cluster: &ClusterConfig, peer_id: &String) -> (r: Option<String>)
    ensures
        match peer_address(cluster.peers@, peer_id@) {
            Some(a) => r matches Some(u) && u@ == "http://"@ + a,
            None => r is None,
        },
{
    match find_peer_address(&cluster.peers, peer_id) {
        Some(a) => {
            let mut url = String::from_str("http://");
            url.append(a.as_str());
            Some(url)
        },
        None => None,
    }
}

/// The IDs of the configured peers, in order.
pub fn peer_ids(cluster: &ClusterConfig) -> (r: Vec<String>)
    ensures
        r@.len() == cluster.peers@.len(),
        forall|i: int| 0 <= i < r@.len() ==> #[trigger] r@[i] == cluster.peers@[i].id,
{
    let mut r: Vec<String> = Vec::new();
    let mut i: usize = 0;
    while i < cluster.peers.len()
        invariant
            0 <= i <= cluster.peers@.len(),
            r@.len() == i,
            forall|k: int| 0 <= k < i ==> #[trigger] r@[k] == cluster.peers@[k].id,
        decreases cluster.peers@.len() - i,
    {
        r.push(cluster.peers[i].id.clone());
        i = i + 1;
    }
    r
}

} // verus!
