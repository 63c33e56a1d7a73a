use vstd::prelude::*;
use crate::config::{config_valid, ConfigModel};
use crate::fsm::InstructionModel;
use crate::node::{command_term, node_wf, step, NodeModel, Outcome, RoleModel};
use crate::raft::{fresh, CommandModel, EntryModel, NodeId, Term};
use crate::rpc::{Address, MessageModel};

verus! {

/// A cluster of nodes and the messages between them.
///
/// The network is the set of all messages ever sent: a message may arrive
/// late, more than once, out of order or never. Beside the nodes and the
/// network a cluster keeps three records: who has been leader in which
/// term, what the log of the leader of each term has come to, and which
/// entries each node has handed to its driver. The records are written,
/// never read, by the steps of the cluster.
pub ghost struct Cluster {
    /// The nodes by their ids.
    pub nodes: Map<NodeId, NodeModel>,
    /// Every message sent so far.
    pub network: Set<MessageModel>,
    /// Every pair of a term and a node that was leader in that term.
    pub elected: Set<(Term, NodeId)>,
    /// For each term that had a leader, the log of that leader as it was
    /// when it last took a step as leader of that term.
    pub leader_logs: Map<Term, Seq<EntryModel>>,
    /// For each node, the entries it has handed to its driver for
    /// application, in the order in which it handed them over.
    pub applied: Map<NodeId, Seq<EntryModel>>,
}

/// The entries that the instructions `is` hand over for application, in
/// order.
pub open spec fn handed(is: Seq<InstructionModel>) -> Seq<EntryModel>
    decreases is.len(),
{
    if is.len() == 0 {
        Seq::empty()
    } else {
        handed(is.drop_last()) + match is.last() {
            InstructionModel::Apply { entry } => seq![entry],
            InstructionModel::Query { .. } => Seq::empty(),
        }
    }
}

/// A command that does not come from another node: a tick, a timeout, a
/// client's request or any other command that carries no term.
pub open spec fn local(cmd: CommandModel) -> bool {
    command_term(cmd) is None
}

/// Whether message `m` may be handed to node `id`.
pub open spec fn addressed_to(m: MessageModel, id: NodeId) -> bool {
    m.to == Address::Peer(id) || m.to == Address::Broadcast
}

/// Whether node `id` may receive `cmd` in cluster `c`: the command is local
/// or travels in a message to the node.
pub open spec fn receivable(c: Cluster, id: NodeId, cmd: CommandModel) -> bool {
    local(cmd) || exists|m: MessageModel|
        #[trigger] c.network.contains(m) && addressed_to(m, id) && m.command == cmd
}

/// The cluster after node `id` took a step with outcome `o`.
pub open spec fn moved(c: Cluster, id: NodeId, o: Outcome) -> Cluster {
    Cluster {
        nodes: c.nodes.insert(id, o.node),
        network: c.network.union(o.messages.to_set()),
        elected: if o.node.role is Leader {
            c.elected.insert((o.node.state.current_term, id))
        } else {
            c.elected
        },
        leader_logs: if o.node.role is Leader {
            c.leader_logs.insert(o.node.state.current_term, o.node.log)
        } else {
            c.leader_logs
        },
        applied: c.applied.insert(id, c.applied[id] + handed(o.instructions)),
    }
}

/// Cluster `d` comes from cluster `c` by node `id` receiving `cmd`.
pub open spec fn next_by(c: Cluster, d: Cluster, id: NodeId, cmd: CommandModel) -> bool {
    &&& c.nodes.dom().contains(id)
    &&& receivable(c, id, cmd)
    &&& step(c.nodes[id], cmd) matches Ok(o) && d == moved(c, id, o)
}

/// Cluster `d` comes from cluster `c` by one step of one node.
pub open spec fn next(c: Cluster, d: Cluster) -> bool {
    exists|id: NodeId, cmd: CommandModel| next_by(c, d, id, cmd)
}

/// Node `id` is as a node is started: a follower of term 0 with an empty
/// log that knows no leader, has voted for nobody and has committed
/// nothing, and whose peers are the other members of the cluster.
pub open spec fn starts(c: Cluster, id: NodeId) -> bool {
    let n = c.nodes[id];
    &&& n.id == id
    &&& node_wf(n)
    &&& n.peers.to_set() == c.nodes.dom().remove(id)
    &&& n.role == RoleModel::Follower { leader_id: None }
    &&& n.log.len() == 0
    &&& n.state.current_term == 0
    &&& n.state.voted_for is None
    &&& n.state.commit_index == 0
    &&& n.state.last_applied == 0
}

/// A node made from a valid configuration that names the other members of
/// the cluster as its peers is as a node is started.
pub proof fn fresh_node_starts(c: Cluster, config: ConfigModel, now: u64, seed: u64)
    requires
        config_valid(config),
        c.nodes.dom().contains(config.node_id),
        c.nodes[config.node_id] == fresh(config, now, seed),
        config.peers.to_set() == c.nodes.dom().remove(config.node_id),
    ensures
        starts(c, config.node_id),
{
}

/// A cluster before its first step: finitely many nodes, each as it is
/// started, and nothing sent yet.
pub open spec fn init(c: Cluster) -> bool {
    &&& c.nodes.dom().finite()
    &&& c.network == Set::<MessageModel>::empty()
    &&& c.elected == Set::<(Term, NodeId)>::empty()
    &&& c.leader_logs == Map::<Term, Seq<EntryModel>>::empty()
    &&& forall|id: NodeId| #[trigger] c.applied[id] == Seq::<EntryModel>::empty()
    &&& forall|id: NodeId| c.nodes.dom().contains(id) ==> starts(c, id)
}

/// A run of a cluster: it begins in an initial cluster and goes on step by
/// step.
pub open spec fn execution(trace: Seq<Cluster>) -> bool {
    &&& trace.len() > 0
    &&& init(trace[0])
    &&& forall|k: int| 0 <= k < trace.len() - 1 ==> next(#[trigger] trace[k], trace[k + 1])
}

/// Whether node `id` is leader in `term` in cluster `c`.
pub open spec fn leads(c: Cluster, id: NodeId, term: Term) -> bool {
    &&& c.nodes.dom().contains(id)
    &&& c.nodes[id].role is Leader
    &&& c.nodes[id].state.current_term == term
}

} // verus!
