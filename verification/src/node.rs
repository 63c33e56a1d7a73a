use vstd::prelude::*;
use crate::election::{election_wf, ElectionModel};
use crate::error::RaftError;
use crate::fsm::InstructionModel;
use crate::log::log_wf;
use crate::progress::NodeProgress;
use crate::raft::{
    ClientOpModel, CommandModel, EntryModel, LogIndex, NodeId, RaftRole, State, Term,
};
use crate::rpc::{Address, MessageModel};

verus! {

/// Mathematical value of the state that belongs to one role.
pub ghost enum RoleModel {
    Follower { leader_id: Option<NodeId> },
    Candidate { election: ElectionModel },
    Leader { progress: Seq<NodeProgress>, heartbeat_time: u64, heartbeat_timeout: u64 },
}

/// Mathematical value of a node: what it was configured with, the state
/// common to all roles, its log, its role, and its last clock reading and
/// random sample.
pub ghost struct NodeModel {
    pub id: NodeId,
    pub peers: Seq<NodeId>,
    pub heartbeat_interval: u64,
    pub state: State,
    pub log: Seq<EntryModel>,
    pub role: RoleModel,
    pub now: u64,
    pub seed: u64,
}

/// What one command does to a node: the node afterwards, the messages it
/// sends and the instructions it hands to the driver, each in order.
pub ghost struct Outcome {
    pub node: NodeModel,
    pub messages: Seq<MessageModel>,
    pub instructions: Seq<InstructionModel>,
}

/// The role a role state stands for.
pub open spec fn kind(role: RoleModel) -> RaftRole {
    match role {
        RoleModel::Follower { .. } => RaftRole::Follower,
        RoleModel::Candidate { .. } => RaftRole::Candidate,
        RoleModel::Leader { .. } => RaftRole::Leader,
    }
}

/// A leader tracks its peers in their configured order and then itself;
/// what it believes replicated exists in its log, and what it sends next is
/// an index of its log or the one after.
pub open spec fn progress_wf(n: NodeModel, progress: Seq<NodeProgress>) -> bool {
    &&& progress.len() == n.peers.len() + 1
    &&& forall|i: int| 0 <= i < n.peers.len() ==> (#[trigger] progress[i]).id == n.peers[i]
    &&& progress[n.peers.len() as int].id == n.id
    &&& progress[n.peers.len() as int].match_index == n.log.len()
    &&& forall|i: int|
        0 <= i < progress.len() ==> {
            &&& (#[trigger] progress[i]).match_index <= n.log.len()
            &&& 1 <= progress[i].next_index <= n.log.len() + 1
        }
}

/// The role state fits the node.
pub open spec fn role_wf(n: NodeModel) -> bool {
    match n.role {
        RoleModel::Follower { .. } => true,
        RoleModel::Candidate { election } => {
            &&& election_wf(election)
            &&& election.voters == n.peers.push(n.id)
        },
        RoleModel::Leader { progress, .. } => progress_wf(n, progress),
    }
}

/// The invariants of a single node: a gapless log, `last_applied <=
/// commit_index <= last index`, a usable timeout range, a peer set without
/// the node itself or repetitions, and role state that fits.
pub open spec fn node_wf(n: NodeModel) -> bool {
    &&& log_wf(n.log)
    &&& n.state.last_applied <= n.state.commit_index <= n.log.len()
    &&& 1 <= n.state.min_election_timeout < n.state.max_election_timeout
    &&& !n.peers.contains(n.id)
    &&& n.peers.no_duplicates()
    &&& role_wf(n)
}

/// The term a command carries, if it is a message between nodes.
pub open spec fn command_term(c: CommandModel) -> Option<Term> {
    match c {
        CommandModel::VoteRequest { term, .. } => Some(term),
        CommandModel::VoteResponse { term, .. } => Some(term),
        CommandModel::AppendEntries { term, .. } => Some(term),
        CommandModel::AppendResponse { term, .. } => Some(term),
        CommandModel::Heartbeat { term, .. } => Some(term),
        _ => None,
    }
}

/// Whether a command carries a term above the node's.
pub open spec fn outranks(n: NodeModel, c: CommandModel) -> bool {
    command_term(c) matches Some(term) && term > n.state.current_term
}

/// The role state after the node's term changed: a candidate's tallies are
/// cleared.
pub open spec fn on_term(role: RoleModel) -> RoleModel {
    match role {
        RoleModel::Candidate { election } => RoleModel::Candidate {
            election: crate::election::cleared(election),
        },
        _ => role,
    }
}

/// The node after it was told of `term`: a higher term is adopted and the
/// vote cast in the old term forgotten; any other term changes nothing.
pub open spec fn at_term(n: NodeModel, term: Term) -> NodeModel {
    if term > n.state.current_term {
        NodeModel {
            state: State { current_term: term, voted_for: None, ..n.state },
            role: on_term(n.role),
            ..n
        }
    } else {
        n
    }
}

/// The node as a follower that knows no leader.
pub open spec fn as_follower(n: NodeModel) -> NodeModel {
    NodeModel { role: RoleModel::Follower { leader_id: None }, ..n }
}

/// The rule every role obeys before it looks at a command: a message with
/// a higher term makes the node adopt that term, forget its vote and become
/// a follower.
pub open spec fn yielded(n: NodeModel, c: CommandModel) -> NodeModel {
    if outranks(n, c) {
        as_follower(at_term(n, command_term(c)->Some_0))
    } else {
        n
    }
}

/// The node with the clock reading and sample of a tick taken down.
pub open spec fn ticked(n: NodeModel, now: u64, seed: u64) -> NodeModel {
    NodeModel { now, seed, ..n }
}

/// A message from node `n` to member `to`.
pub open spec fn to_peer(n: NodeModel, to: NodeId, command: CommandModel) -> MessageModel {
    MessageModel { from: Address::Peer(n.id), to: Address::Peer(to), command }
}

/// Nothing is sent and nothing handed to the driver.
pub open spec fn quiet(n: NodeModel) -> Outcome {
    Outcome { node: n, messages: Seq::empty(), instructions: Seq::empty() }
}

/// One message goes to member `to`.
pub open spec fn replying(n: NodeModel, to: NodeId, command: CommandModel) -> Outcome {
    Outcome { node: n, messages: seq![to_peer(n, to, command)], instructions: Seq::empty() }
}

/// The refusal of a vote.
pub open spec fn denying(n: NodeModel, candidate_id: NodeId) -> Outcome {
    replying(
        n,
        candidate_id,
        CommandModel::VoteResponse { term: n.state.current_term, from: n.id, granted: false },
    )
}

/// The refusal of an append or a heartbeat: it tells the sender the node's
/// term and last index.
pub open spec fn rejecting(n: NodeModel, leader_id: NodeId) -> Outcome {
    replying(
        n,
        leader_id,
        CommandModel::AppendResponse {
            term: n.state.current_term,
            from: n.id,
            index: n.log.len() as u64,
            success: false,
        },
    )
}

/// A client's read goes to the driver of this node, whatever its role.
pub open spec fn asking(n: NodeModel, id: u64, query: Seq<u8>) -> Outcome {
    Outcome {
        node: n,
        messages: Seq::empty(),
        instructions: seq![InstructionModel::Query { id, query }],
    }
}

/// The entries committed but not yet handed to the driver, as instructions
/// in index order.
pub open spec fn newly_committed(n: NodeModel) -> Seq<InstructionModel> {
    Seq::new(
        (n.state.commit_index - n.state.last_applied) as nat,
        |k: int| InstructionModel::Apply { entry: n.log[n.state.last_applied + k] },
    )
}

/// The node after everything committed was handed to the driver.
pub open spec fn delivered(n: NodeModel) -> NodeModel {
    NodeModel { state: State { last_applied: n.state.commit_index, ..n.state }, ..n }
}

/// The node with `commit_index` raised to `commit`, together with the
/// instructions that hands to the driver and the messages sent besides.
pub open spec fn committing(
    n: NodeModel,
    commit: LogIndex,
    messages: Seq<MessageModel>,
) -> Outcome {
    let raised = NodeModel { state: State { commit_index: commit, ..n.state }, ..n };
    Outcome { node: delivered(raised), messages, instructions: newly_committed(raised) }
}

/// What a command does to a node in any role, or the error that stops the
/// node.
pub open spec fn step(n: NodeModel, c: CommandModel) -> Result<Outcome, RaftError> {
    let m = yielded(n, c);
    match m.role {
        RoleModel::Follower { .. } => crate::follower::follower_step(m, c),
        RoleModel::Candidate { .. } => crate::candidate::candidate_step(m, c),
        RoleModel::Leader { .. } => crate::leader::leader_step(m, c),
    }
}

/// What every role does with a command that concerns none of them: a
/// client's read is passed to the driver, anything else is dropped.
pub open spec fn otherwise(n: NodeModel, c: CommandModel) -> Outcome {
    match c {
        CommandModel::ClientRequest { id, op: ClientOpModel::Query(query) } => asking(n, id, query),
        _ => quiet(n),
    }
}

} // verus!
