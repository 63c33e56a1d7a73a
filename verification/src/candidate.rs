use vstd::prelude::*;
use crate::election::{recorded, status, Election, ElectionModel, ElectionStatus};
use crate::error::RaftError;
use crate::follower::follower_step;
use crate::leader::lead;
use crate::log::last_term;
use crate::node::{
    as_follower, denying, otherwise, quiet, rejecting, ticked, to_peer, NodeModel, Outcome,
    RoleModel,
};
use crate::follower::Follower;
use crate::fsm::InstructionModel;
use crate::raft::{
    after, Apply, follows, Command, CommandModel, NodeId, Raft, RaftHandle, RaftRole, Role, Snapshot,
    State,
};
use crate::rpc::MessageModel;

verus! {

/// The requests for a vote a candidate sends, one to each peer in the
/// configured order. They carry the term and index of its last entry.
pub open spec fn vote_requests(n: NodeModel) -> Seq<crate::rpc::MessageModel> {
    Seq::new(
        n.peers.len(),
        |i: int|
            to_peer(
                n,
                n.peers[i],
                CommandModel::VoteRequest {
                    term: n.state.current_term,
                    candidate_id: n.id,
                    last_term: last_term(n.log),
                    last_index: n.log.len() as u64,
                },
            ),
    )
}

/// The node as a candidate of the next term: it has voted for itself,
/// picked a timeout from its sample and started its election timer.
pub open spec fn standing(n: NodeModel) -> NodeModel {
    let term = (n.state.current_term + 1) as u64;
    NodeModel {
        state: State {
            current_term: term,
            voted_for: Some(n.id),
            election_time: Some(n.now),
            election_timeout: Some(n.state.picked_timeout(n.seed)),
            ..n.state
        },
        role: RoleModel::Candidate {
            election: ElectionModel {
                term,
                voters: n.peers.push(n.id),
                granted: seq![n.id],
                denied: Seq::empty(),
            },
        },
        ..n
    }
}

/// The outcome `r` of a step that sent `sent` before.
pub open spec fn preceded(
    sent: Seq<crate::rpc::MessageModel>,
    r: Result<Outcome,
    RaftError>,
) -> Result<
    Outcome,
    RaftError,
> {
    match r {
        Ok(o) => Ok(Outcome { messages: sent + o.messages, ..o }),
        Err(e) => Err(e),
    }
}

/// What starting an election does to a node. A node that is the whole
/// cluster is elected by its own vote at once.
pub open spec fn campaign(n: NodeModel) -> Result<Outcome, RaftError> {
    if n.state.current_term == u64::MAX {
        Err(RaftError::TermOverflow)
    } else {
        let c = standing(n);
        if status(c.role->Candidate_election) == ElectionStatus::Elected {
            preceded(vote_requests(c), lead(c))
        } else {
            Ok(Outcome { node: c, messages: vote_requests(c), instructions: Seq::empty() })
        }
    }
}

/// The node after it gave its candidacy up: a follower of the same term
/// that has voted for nobody.
pub open spec fn abandoned(n: NodeModel) -> NodeModel {
    as_follower(NodeModel { state: State { voted_for: None, ..n.state }, ..n })
}

/// What a vote of the current term does to a candidate.
pub open spec fn on_vote_response(n: NodeModel, from: crate::raft::NodeId, granted: bool) -> Result<
    Outcome,
    RaftError,
> {
    let election = recorded(n.role->Candidate_election, from, granted);
    let counted = NodeModel { role: RoleModel::Candidate { election }, ..n };
    match status(election) {
        ElectionStatus::Elected => lead(counted),
        ElectionStatus::Defeated => Ok(quiet(abandoned(counted))),
        ElectionStatus::Voting => Ok(quiet(counted)),
    }
}

/// What a command does to a candidate whose term is at least the command's.
pub open spec fn candidate_step(n: NodeModel, c: CommandModel) -> Result<Outcome, RaftError> {
    match c {
        CommandModel::Tick { now, seed } => {
            let m = ticked(n, now, seed);
            if m.state.election_due(now) {
                Ok(quiet(abandoned(m)))
            } else {
                Ok(quiet(m))
            }
        },
        CommandModel::VoteRequest { candidate_id, .. } => Ok(denying(n, candidate_id)),
        CommandModel::VoteResponse { term, from, granted } => {
            if term == n.state.current_term {
                on_vote_response(n, from, granted)
            } else {
                Ok(quiet(n))
            }
        },
        CommandModel::AppendEntries { term, leader_id, .. } => {
            if term >= n.state.current_term {
                follower_step(as_follower(n), c)
            } else {
                Ok(rejecting(n, leader_id))
            }
        },
        CommandModel::Heartbeat { term, leader_id } => {
            if term >= n.state.current_term {
                follower_step(as_follower(n), c)
            } else {
                Ok(rejecting(n, leader_id))
            }
        },
        _ => Ok(otherwise(n, c)),
    }
}

/// Role state of a candidate.
#[derive(Debug)]
pub struct Candidate {
    /// The tally of the election the candidate stands in.
    pub election: Election,
}

impl Role for Candidate {
    open spec fn model(&self) -> RoleModel {
        RoleModel::Candidate { election: self.election@ }
    }

    fn term(&mut self, _term: u64) {
        self.election.reset();
    }

    fn role(&self) -> RaftRole {
        RaftRole::Candidate
    }
}

impl Raft<Follower> {
    /// The node as a candidate that has not begun its election yet:
    /// everything that does not belong to the role stays.
    pub fn into_candidate(self) -> (r: Raft<Candidate>)
        requires
            self.wf(),
        ensures
            r.wf(),
            r.snapshot().sent == self.snapshot().sent,
            r.snapshot().queued == self.snapshot().queued,
            r.node() == (NodeModel { role: r.node().role, ..self.node() }),
    {
        let mut voters = self.config.peer_ids();
        voters.push(self.id);
        let election = Election::new(self.state.current_term, voters);
        Raft {
            id: self.id,
            config: self.config,
            log: self.log,
            state: self.state,
            role: Candidate { election },
            now: self.now,
            seed: self.seed,
            outbox: self.outbox,
            instructions: self.instructions,
        }
    }
}

impl Raft<Candidate> {
    /// Begins an election: the term goes up by one, the node votes for
    /// itself, picks a timeout from its sample, starts its election timer
    /// and asks every peer for its vote. A node that is the whole cluster
    /// takes office at once. Fails when there is no higher term.
    pub fn seek_election(self) -> (r: Result<RaftHandle, RaftError>)
        requires
            self.wf(),
        ensures
            follows(self.snapshot(), campaign(self.node()), r),
    {
        let ghost n = self.node();
        let ghost before = self.snapshot();
        if self.state.current_term == u64::MAX {
            return Err(RaftError::TermOverflow);
        }
        let ghost c = standing(n);
        let mut raft = self;
        let term = raft.state.current_term + 1;
        let id = raft.id;
        raft.state.voted_for = Some(id);
        raft.state.current_term = term;
        raft.state.election_time = Some(raft.now);
        raft.state.election_timeout = Some(raft.state.pick_timeout(raft.seed));
        let peers = raft.config.peer_ids();
        let mut voters = raft.config.peer_ids();
        voters.push(id);
        assert(voters@.last() == id);
        let mut election = Election::new(term, voters);
        election.vote(id, true);
        raft.role.election = election;
        assert(raft.role.election@.granted =~= seq![id]);
        assert(raft.node() == c);
        let last_term = raft.log.last_term();
        let last_index = raft.log.last_index();
        let mut i: usize = 0;
        while i < peers.len()
            invariant
                i <= peers.len(),
                peers@ == c.peers,
                raft.node() == c,
                id == c.id,
                term == c.state.current_term,
                last_term == crate::log::last_term(c.log),
                last_index == c.log.len(),
                raft.snapshot().queued == before.queued,
                raft.snapshot().sent == before.sent + vote_requests(c).subrange(0, i as int),
            decreases peers.len() - i,
        {
            raft.send(
                peers[i],
                Command::VoteRequest { term, candidate_id: id, last_term, last_index },
            );
            assert(raft.snapshot().sent =~= before.sent + vote_requests(c).subrange(
                0,
                i as int + 1,
            ));
            i += 1;
        }
        assert(vote_requests(c).subrange(0, i as int) =~= vote_requests(c));
        match raft.role.election.election_status() {
            ElectionStatus::Elected => {
                let r = raft.lead();
                proof {
                    match lead(c) {
                        Ok(o) => {
                            let h = r->Ok_0;
                            assert(h.snapshot().sent =~= before.sent + (vote_requests(c)
                                + o.messages));
                        },
                        Err(_) => {},
                    }
                }
                r
            },
            _ => {
                assert(raft.snapshot().queued =~= before.queued + Seq::<InstructionModel>::empty());
                Ok(RaftHandle::Candidate(raft))
            },
        }
    }

    /// Gives the candidacy up: the node is a follower of the same term that
    /// has voted for nobody.
    pub fn abandon(self) -> (r: Raft<Follower>)
        requires
            self.wf(),
        ensures
            r.wf(),
            r.snapshot() == (Snapshot { node: abandoned(self.node()), ..self.snapshot() }),
    {
        let mut raft = self;
        raft.state.voted_for = None;
        Raft::from(raft)
    }

    /// Takes a vote of the current term down and acts on where the
    /// election then stands.
    pub fn vote_response(self, from: NodeId, granted: bool) -> (r: Result<RaftHandle, RaftError>)
        requires
            self.wf(),
        ensures
            follows(self.snapshot(), on_vote_response(self.node(), from, granted), r),
    {
        let ghost before = self.snapshot();
        let mut raft = self;
        raft.role.election.vote(from, granted);
        match raft.role.election.election_status() {
            ElectionStatus::Elected => raft.lead(),
            ElectionStatus::Defeated => {
                let raft = raft.abandon();
                assert(raft.snapshot().sent =~= before.sent + Seq::<MessageModel>::empty());
                assert(raft.snapshot().queued =~= before.queued + Seq::<InstructionModel>::empty());
                Ok(RaftHandle::Follower(raft))
            },
            ElectionStatus::Voting => {
                assert(raft.snapshot().sent =~= before.sent + Seq::<MessageModel>::empty());
                assert(raft.snapshot().queued =~= before.queued + Seq::<InstructionModel>::empty());
                Ok(RaftHandle::Candidate(raft))
            },
        }
    }

    /// What a candidate does with a command whose term is not above its
    /// own.
    pub fn handle(self, cmd: Command) -> (r: Result<RaftHandle, RaftError>)
        requires
            self.wf(),
            !crate::node::outranks(self.node(), cmd@),
        ensures
            follows(self.snapshot(), candidate_step(self.node(), cmd@), r),
    {
        let ghost before = self.snapshot();
        let mut raft = self;
        match cmd {
            Command::Tick { now, seed } => {
                raft.now = now;
                raft.seed = seed;
                if raft.needs_election() {
                    let raft = raft.abandon();
                    assert(raft.snapshot().sent =~= before.sent + Seq::<MessageModel>::empty());
                    assert(raft.snapshot().queued =~= before.queued + Seq::<
                        InstructionModel,
                    >::empty());
                    Ok(RaftHandle::Follower(raft))
                } else {
                    assert(raft.snapshot().sent =~= before.sent + Seq::<MessageModel>::empty());
                    assert(raft.snapshot().queued =~= before.queued + Seq::<
                        InstructionModel,
                    >::empty());
                    Ok(RaftHandle::Candidate(raft))
                }
            },
            Command::VoteRequest { candidate_id, .. } => {
                raft.deny(candidate_id);
                Ok(RaftHandle::Candidate(raft))
            },
            Command::VoteResponse { term, from, granted } => {
                if term == raft.state.current_term {
                    raft.vote_response(from, granted)
                } else {
                    assert(raft.snapshot().sent =~= before.sent + Seq::<MessageModel>::empty());
                    assert(raft.snapshot().queued =~= before.queued + Seq::<
                        InstructionModel,
                    >::empty());
                    Ok(RaftHandle::Candidate(raft))
                }
            },
            Command::AppendEntries {
                term,
                leader_id,
                prev_index,
                prev_term,
                entries,
                leader_commit,
            } => {
                if term >= raft.state.current_term {
                    raft.into_follower().handle(
                        Command::AppendEntries {
                            term,
                            leader_id,
                            prev_index,
                            prev_term,
                            entries,
                            leader_commit,
                        },
                    )
                } else {
                    raft.reject(leader_id);
                    Ok(RaftHandle::Candidate(raft))
                }
            },
            Command::Heartbeat { term, leader_id } => {
                if term >= raft.state.current_term {
                    raft.into_follower().handle(Command::Heartbeat { term, leader_id })
                } else {
                    raft.reject(leader_id);
                    Ok(RaftHandle::Candidate(raft))
                }
            },
            other => {
                raft.other(other);
                Ok(RaftHandle::Candidate(raft))
            },
        }
    }
}

impl Apply for Raft<Candidate> {
    open spec fn before(&self) -> Snapshot {
        self.snapshot()
    }

    fn apply(self, cmd: Command) -> (r: Result<RaftHandle, RaftError>) {
        match self.outranked_by(&cmd) {
            Some(term) => self.yield_to(term).handle(cmd),
            None => self.handle(cmd),
        }
    }
}

/// A candidate becomes a follower that knows no leader; everything that
/// does not belong to the role stays.
impl From<Raft<Candidate>> for Raft<Follower> {
    fn from(val: Raft<Candidate>) -> (r: Raft<Follower>) {
        Raft {
            id: val.id,
            config: val.config,
            log: val.log,
            state: val.state,
            role: Follower { leader_id: None },
            now: val.now,
            seed: val.seed,
            outbox: val.outbox,
            instructions: val.instructions,
        }
    }
}

impl vstd::std_specs::convert::FromSpecImpl<Raft<Candidate>> for Raft<Follower> {
    open spec fn obeys_from_spec() -> bool {
        true
    }

    open spec fn from_spec(val: Raft<Candidate>) -> Raft<Follower> {
        Raft {
            id: val.id,
            config: val.config,
            log: val.log,
            state: val.state,
            role: Follower { leader_id: None },
            now: val.now,
            seed: val.seed,
            outbox: val.outbox,
            instructions: val.instructions,
        }
    }
}

} // verus!
