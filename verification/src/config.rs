//! The configuration of a node.
use vstd::prelude::*;
use vstd::string::*;

verus! {

#[derive(Debug, Clone)]
pub struct Config {
    pub node_id: u64,
    pub data_dir: String,
    pub listen_addr: String,
    pub api_addr: String,
    pub memtable_max_points: usize,
    pub peers: Vec<RaftPeer>,
}

#[derive(Debug, Clone)]
pub struct RaftPeer {
    pub id: u64,
    pub addr: String,
}

impl Default for Config {
    fn default() -> (c: Self)
        ensures
            c.node_id == 1,
            c.data_dir@ == "./data"@,
            c.listen_addr@ == "0.0.0.0:7700"@,
            c.api_addr@ == "0.0.0.0:7800"@,
            c.memtable_max_points == 100_000,
            c.peers@.len() == 0,
    {
        Config {
            node_id: 1,
            data_dir: String::from_str("./data"),
            listen_addr: String::from_str("0.0.0.0:7700"),
            api_addr: String::from_str("0.0.0.0:7800"),
            memtable_max_points: 100_000,
            peers: Vec::new(),
        }
    }
}

/// The ids of peers.
pub open spec fn peer_ids(peers: Seq<RaftPeer>) -> Seq<u64> {
    peers.map_values(|p: RaftPeer| p.id)
}

impl Config {
    /// Whether the node runs alone.
    pub fn is_single(&self) -> (b: bool)
        ensures
            b == (self.peers@.len() == 0),
    {
        self.peers.len() == 0
    }

    /// The nodes that vote: all that are named as peers, this one among them.
    pub fn voters(&self) -> (ids: Vec<u64>)
        ensures
            ids@ == peer_ids(self.peers@),
            ids@.len() == self.peers@.len(),
            forall|i: int| 0 <= i < ids@.len() ==> #[trigger] ids@[i] == self.peers@[i].id,
    {
        let mut ids: Vec<u64> = Vec::new();
        let mut i: usize = 0;
        while i < self.peers.len()
            invariant
                i <= self.peers@.len(),
                ids@ == peer_ids(self.peers@).take(i as int),
            decreases self.peers@.len() - i,
        {
            ids.push(self.peers[i].id);
            assert(ids@ =~= peer_ids(self.peers@).take(i + 1));
            i = i + 1;
        }
        assert(ids@ =~= peer_ids(self.peers@));
        ids
    }

    /// Whether a peer is another node than this one.
    pub fn is_remote(&self, peer: &RaftPeer) -> (b: bool)
        ensures
            b == (peer.id != self.node_id),
    {
        peer.id != self.node_id
    }
}

/// There are as many ids as peers, and each is that of the peer in its place; so a node
/// votes if, and only if, it is named.
pub proof fn every_peer_votes(peers: Seq<RaftPeer>)
    ensures
        peer_ids(peers).len() == peers.len(),
        forall|i: int| 0 <= i < peers.len() ==> #[trigger] peer_ids(peers)[i] == peers[i].id,
        forall|id: u64| #[trigger]
            peer_ids(peers).contains(id) <==> exists|i: int|
                0 <= i < peers.len() && (#[trigger] peers[i]).id == id,
{
    assert forall|id: u64| #[trigger] peer_ids(peers).contains(id) <==> exists|i: int|
        0 <= i < peers.len() && (#[trigger] peers[i]).id == id by {
        if peer_ids(peers).contains(id) {
            let i = peer_ids(peers).index_of(id);
            assert(peers[i].id == id);
        }
        if exists|i: int| 0 <= i < peers.len() && (#[trigger] peers[i]).id == id {
            let i = choose|i: int| 0 <= i < peers.len() && (#[trigger] peers[i]).id == id;
            assert(peer_ids(peers)[i] == id);
        }
    }
}

/// The voters of a configuration are its peers: as many, and each in its place.
pub proof fn voters_are_the_peers(c: Config, ids: Vec<u64>)
    requires
        call_ensures(Config::voters, (&c,), ids),
    ensures
        ids@.len() == c.peers@.len(),
        forall|i: int| 0 <= i < ids@.len() ==> #[trigger] ids@[i] == c.peers@[i].id,
{
}

/// A node runs alone if it has no peers; and a peer is another node if its id is another.
pub proof fn peers_are_told_apart(c: Config, alone: bool, peer: RaftPeer, remote: bool)
    requires
        call_ensures(Config::is_single, (&c,), alone),
        call_ensures(Config::is_remote, (&c, &peer), remote),
    ensures
        alone <==> c.peers@.len() == 0,
        remote <==> peer.id != c.node_id,
{
}

} // verus!
