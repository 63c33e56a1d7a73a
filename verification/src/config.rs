use vstd::prelude::*;
use crate::election::distinct_ids;
use crate::raft::{Node, NodeId};

verus! {

/// Why a configuration was refused.
#[derive(Clone, Copy, Debug, PartialEq, Eq, Structural)]
pub enum ConfigError {
    /// The election timeouts are not `min < max`, or the heartbeat interval
    /// is not below the minimum election timeout.
    Timing,
    /// The peers list this node itself or some node twice.
    PeerSet,
}

/// Mathematical value of a [`RaftConfig`]: the peers by their ids.
pub ghost struct ConfigModel {
    pub node_id: NodeId,
    pub peers: Seq<NodeId>,
    pub min_election_timeout_ms: u64,
    pub max_election_timeout_ms: u64,
    pub heartbeat_interval_ms: u64,
}

/// The timing constraints: `min < max` and `heartbeat < min`.
pub open spec fn timing_valid(c: ConfigModel) -> bool {
    &&& c.min_election_timeout_ms < c.max_election_timeout_ms
    &&& c.heartbeat_interval_ms < c.min_election_timeout_ms
}

/// The peer set excludes this node and lists nobody twice.
pub open spec fn peers_valid(c: ConfigModel) -> bool {
    &&& !c.peers.contains(c.node_id)
    &&& c.peers.no_duplicates()
}

/// A configuration a node can be started with.
pub open spec fn config_valid(c: ConfigModel) -> bool {
    timing_valid(c) && peers_valid(c)
}

/// The ids of `nodes`, in order.
pub open spec fn ids_of(nodes: Seq<Node>) -> Seq<NodeId> {
    Seq::new(nodes.len(), |i: int| nodes[i].id)
}

/// Static description of one member of a fixed cluster.
#[derive(Debug)]
pub struct RaftConfig {
    /// The id of this node.
    pub node_id: NodeId,
    /// The other members of the cluster.
    pub peers: Vec<Node>,
    /// Lower bound of the randomized election timeout, in milliseconds.
    pub min_election_timeout_ms: u64,
    /// Upper bound of the randomized election timeout, in milliseconds.
    pub max_election_timeout_ms: u64,
    /// Time between two heartbeats of a leader, in milliseconds.
    pub heartbeat_interval_ms: u64,
}

impl View for RaftConfig {
    type V = ConfigModel;

    open spec fn view(&self) -> ConfigModel {
        ConfigModel {
            node_id: self.node_id,
            peers: ids_of(self.peers@),
            min_election_timeout_ms: self.min_election_timeout_ms,
            max_election_timeout_ms: self.max_election_timeout_ms,
            heartbeat_interval_ms: self.heartbeat_interval_ms,
        }
    }
}

impl RaftConfig {
    /// The ids of the peers, in the order of the configuration.
    pub fn peer_ids(&self) -> (ids: Vec<NodeId>)
        ensures
            ids@ == self@.peers,
    {
        let mut ids: Vec<NodeId> = Vec::new();
        let mut i: usize = 0;
        while i < self.peers.len()
            invariant
                i <= self.peers.len(),
                ids.len() == i,
                forall|j: int| 0 <= j < i ==> ids@[j] == self.peers@[j].id,
            decreases self.peers.len() - i,
        {
            ids.push(self.peers[i].id);
            i += 1;
        }
        assert(ids@ =~= self@.peers);
        ids
    }

    /// Checks the constraints on a configuration: the timing first, then
    /// the peer set.
    pub fn validate(&self) -> (r: Result<(), ConfigError>)
        ensures
            config_valid(self@) <==> r is Ok,
            !timing_valid(self@) <==> r == Err::<(), ConfigError>(ConfigError::Timing),
            timing_valid(self@) && !peers_valid(self@) <==> r == Err::<(), ConfigError>(
                ConfigError::PeerSet,
            ),
    {
        if !(self.min_election_timeout_ms < self.max_election_timeout_ms
            && self.heartbeat_interval_ms < self.min_election_timeout_ms) {
            return Err(ConfigError::Timing);
        }
        let ids = self.peer_ids();
        if crate::election::contains_id(&ids, self.node_id) || !distinct_ids(&ids) {
            return Err(ConfigError::PeerSet);
        }
        Ok(())
    }
}

impl Clone for RaftConfig {
    fn clone(&self) -> (r: Self)
        ensures
            r@ == self@,
    {
        let r = RaftConfig {
            node_id: self.node_id,
            peers: self.peers.clone(),
            min_election_timeout_ms: self.min_election_timeout_ms,
            max_election_timeout_ms: self.max_election_timeout_ms,
            heartbeat_interval_ms: self.heartbeat_interval_ms,
        };
        assert(r@.peers =~= self@.peers);
        r
    }
}

} // verus!
