use vstd::prelude::*;
use crate::candidate::campaign;
use crate::error::RaftError;
use crate::log::{continues, last_term, term_at};
use crate::node::{
    committing, denying, otherwise, quiet, rejecting, replying, ticked, NodeModel, Outcome,
    RoleModel,
};
use crate::fsm::InstructionModel;
use crate::log::{numbered_from, Log};
use crate::node::to_peer;
use crate::raft::{
    after, Apply, entries_model, follows, Command, CommandModel, Entry, EntryModel, LogIndex, NodeId,
    Raft, RaftHandle, RaftRole, Role, Snapshot, State, Term,
};
use crate::rpc::MessageModel;

verus! {

/// The node after it heard from the leader of its term: it takes the
/// leader down and starts its election timer anew.
pub open spec fn heard_from(n: NodeModel, leader_id: NodeId) -> NodeModel {
    NodeModel {
        role: RoleModel::Follower { leader_id: Some(leader_id) },
        state: State { election_time: Some(n.now), ..n.state },
        ..n
    }
}

/// A log that ends in (`last_term`, `last_index`) is at least as up to date
/// as `log`: its last term is higher, or the same with an index at least as
/// high.
pub open spec fn up_to_date(log: Seq<EntryModel>, last_term: Term, last_index: LogIndex) -> bool {
    last_term > crate::log::last_term(log) || (last_term == crate::log::last_term(log)
        && last_index >= log.len())
}

/// Whether the node grants its vote in `term` to `candidate_id`.
pub open spec fn grants(
    n: NodeModel,
    term: Term,
    candidate_id: NodeId,
    last_term: Term,
    last_index: LogIndex,
) -> bool {
    &&& term >= n.state.current_term
    &&& (n.state.voted_for is None || n.state.voted_for == Some(candidate_id))
    &&& up_to_date(n.log, last_term, last_index)
}

/// What a request for a vote does to a follower.
pub open spec fn on_vote_request(
    n: NodeModel,
    term: Term,
    candidate_id: NodeId,
    last_term: Term,
    last_index: LogIndex,
) -> Outcome {
    if grants(n, term, candidate_id, last_term, last_index) {
        replying(
            NodeModel {
                state: State {
                    voted_for: Some(candidate_id),
                    election_time: Some(n.now),
                    ..n.state
                },
                ..n
            },
            candidate_id,
            CommandModel::VoteResponse { term: n.state.current_term, from: n.id, granted: true },
        )
    } else {
        denying(n, candidate_id)
    }
}

/// The first position at or after `k` in `es` whose entry the log does not
/// hold yet: the log ends before it or holds another term there. It is the
/// length of `es` if the log holds them all.
pub open spec fn first_new(
    log: Seq<EntryModel>,
    prev_index: LogIndex,
    es: Seq<EntryModel>,
    k: int,
) -> int
    decreases es.len() - k,
{
    if k < 0 || k >= es.len() {
        es.len() as int
    } else if prev_index + k >= log.len() || log[prev_index + k].term != es[k].term {
        k
    } else {
        first_new(log, prev_index, es, k + 1)
    }
}

/// Whether a follower takes the entries `es` that follow `prev_index`:
/// they are numbered from `prev_index + 1` on, the log holds `prev_term`
/// at `prev_index`, and no committed entry would have to go.
pub open spec fn acceptable(
    n: NodeModel,
    prev_index: LogIndex,
    prev_term: Term,
    es: Seq<EntryModel>,
) -> bool {
    &&& continues(prev_index as int, es)
    &&& (prev_index == 0 || term_at(n.log, prev_index) == Some(prev_term))
    &&& {
        let k = first_new(n.log, prev_index, es, 0);
        k < es.len() && prev_index + k < n.log.len() ==> prev_index + k >= n.state.commit_index
    }
}

/// The log after the entries `es` that follow `prev_index` were taken: from
/// the first entry the log does not hold yet, the log is cut and the rest
/// of `es` appended.
pub open spec fn merged(log: Seq<EntryModel>, prev_index: LogIndex, es: Seq<EntryModel>) -> Seq<
    EntryModel,
> {
    let k = first_new(log, prev_index, es, 0);
    if k >= es.len() {
        log
    } else {
        log.subrange(0, prev_index + k) + es.subrange(k, es.len() as int)
    }
}

/// The commit index of a follower with log `log` after its leader told it
/// of `leader_commit`.
pub open spec fn follower_commit(
    commit_index: LogIndex,
    leader_commit: LogIndex,
    log: Seq<EntryModel>,
) -> LogIndex {
    let reach = if leader_commit <= log.len() {
        leader_commit
    } else {
        log.len() as u64
    };
    if reach > commit_index {
        reach
    } else {
        commit_index
    }
}

/// What an append request of the current term does to a follower.
pub open spec fn on_append_entries(
    n: NodeModel,
    leader_id: NodeId,
    prev_index: LogIndex,
    prev_term: Term,
    es: Seq<EntryModel>,
    leader_commit: LogIndex,
) -> Outcome {
    let m = heard_from(n, leader_id);
    if !acceptable(n, prev_index, prev_term, es) {
        rejecting(m, leader_id)
    } else {
        let log = merged(n.log, prev_index, es);
        let kept = NodeModel { log, ..m };
        committing(
            kept,
            follower_commit(n.state.commit_index, leader_commit, log),
            seq![
                crate::node::to_peer(
                    kept,
                    leader_id,
                    CommandModel::AppendResponse {
                        term: n.state.current_term,
                        from: n.id,
                        index: (prev_index + es.len()) as u64,
                        success: true,
                    },
                ),
            ],
        )
    }
}

/// What a heartbeat of the current term does to a follower.
pub open spec fn on_heartbeat(n: NodeModel, leader_id: NodeId) -> Outcome {
    replying(
        heard_from(n, leader_id),
        leader_id,
        CommandModel::AppendResponse {
            term: n.state.current_term,
            from: n.id,
            index: 0,
            success: true,
        },
    )
}

/// What a command does to a follower whose term is at least the command's.
pub open spec fn follower_step(n: NodeModel, c: CommandModel) -> Result<Outcome, RaftError> {
    match c {
        CommandModel::Tick { now, seed } => {
            let m = ticked(n, now, seed);
            if m.state.election_due(now) {
                campaign(m)
            } else {
                Ok(quiet(m))
            }
        },
        CommandModel::Timeout => campaign(n),
        CommandModel::Heartbeat { term, leader_id } => {
            if term >= n.state.current_term {
                Ok(on_heartbeat(n, leader_id))
            } else {
                Ok(rejecting(n, leader_id))
            }
        },
        CommandModel::AppendEntries {
            term,
            leader_id,
            prev_index,
            prev_term,
            entries,
            leader_commit,
        } => {
            if term >= n.state.current_term {
                Ok(on_append_entries(n, leader_id, prev_index, prev_term, entries, leader_commit))
            } else {
                Ok(rejecting(n, leader_id))
            }
        },
        CommandModel::VoteRequest { term, candidate_id, last_term, last_index } => Ok(
            on_vote_request(n, term, candidate_id, last_term, last_index),
        ),
        _ => Ok(otherwise(n, c)),
    }
}

/// Role state of a follower.
#[derive(Debug)]
pub struct Follower {
    /// The leader the follower last heard from; a hint, not an authority.
    pub leader_id: Option<NodeId>,
}

impl Role for Follower {
    open spec fn model(&self) -> RoleModel {
        RoleModel::Follower { leader_id: self.leader_id }
    }

    fn term(&mut self, _term: u64) {
    }

    fn role(&self) -> RaftRole {
        RaftRole::Follower
    }
}

/// Scanning for the first new entry from `k` finds what scanning from the
/// start finds when the log holds every entry before `k`.
pub proof fn lemma_first_new_skip(
    log: Seq<EntryModel>,
    prev_index: LogIndex,
    es: Seq<EntryModel>,
    k: int,
)
    requires
        0 <= k <= es.len(),
        forall|j: int|
            0 <= j < k ==> prev_index + j < log.len() && log[prev_index + j].term == (
            #[trigger] es[j]).term,
    ensures
        first_new(log, prev_index, es, 0) == first_new(log, prev_index, es, k),
    decreases k,
{
    if k > 0 {
        lemma_first_new_skip(log, prev_index, es, k - 1);
    }
}

/// The first position in `entries` whose entry `log` does not hold yet.
pub fn find_first_new(log: &Log, prev_index: LogIndex, entries: &Vec<Entry>) -> (k: usize)
    requires
        continues(prev_index as int, entries_model(entries@)),
    ensures
        k == first_new(log@, prev_index, entries_model(entries@), 0),
        k <= entries@.len(),
{
    let ghost es = entries_model(entries@);
    let mut k: usize = 0;
    let mut found = false;
    while !found && k < entries.len()
        invariant
            k <= entries.len(),
            es == entries_model(entries@),
            prev_index + entries.len() < u64::MAX,
            forall|j: int|
                0 <= j < k ==> prev_index + j < log@.len() && log@[prev_index + j].term == (
                #[trigger] es[j]).term,
            found ==> k < entries.len() && (prev_index + k >= log@.len() || log@[prev_index
                + k].term != es[k as int].term),
        decreases entries.len() - k + if found { 0int } else { 1int },
    {
        let held = match log.term_at(prev_index + 1 + k as u64) {
            Some(term) => term == entries[k].term,
            None => false,
        };
        if held {
            k += 1;
        } else {
            found = true;
        }
    }
    proof {
        lemma_first_new_skip(log@, prev_index, es, k as int);
    }
    k
}

impl Raft<Follower> {
    /// Takes down that the leader of the current term was heard from and
    /// starts the election timer anew.
    pub fn hear_from(&mut self, leader_id: NodeId)
        ensures
            final(self).snapshot() == (Snapshot {
                node: heard_from(old(self).node(), leader_id),
                ..old(self).snapshot()
            }),
            old(self).wf() ==> final(self).wf(),
    {
        self.role.leader_id = Some(leader_id);
        self.state.election_time = Some(self.now);
    }

    /// Answers a request for a vote.
    pub fn vote_request(
        &mut self,
        term: Term,
        candidate_id: NodeId,
        last_term: Term,
        last_index: LogIndex,
    )
        requires
            old(self).wf(),
        ensures
            final(self).wf(),
            final(self).snapshot() == after(
                old(self).snapshot(),
                on_vote_request(old(self).node(), term, candidate_id, last_term, last_index),
            ),
    {
        let ghost before = self.snapshot();
        let free = match self.state.voted_for {
            None => true,
            Some(id) => id == candidate_id,
        };
        let own_term = self.log.last_term();
        let current = last_term > own_term || (last_term == own_term && last_index
            >= self.log.last_index());
        if term >= self.state.current_term && free && current {
            self.state.voted_for = Some(candidate_id);
            self.state.election_time = Some(self.now);
            let from = self.id;
            let term = self.state.current_term;
            self.send(candidate_id, Command::VoteResponse { term, from, granted: true });
            assert(self.snapshot().sent =~= before.sent + on_vote_request(
                old(self).node(),
                term,
                candidate_id,
                last_term,
                last_index,
            ).messages);
            assert(self.snapshot().queued =~= before.queued + Seq::<InstructionModel>::empty());
        } else {
            self.deny(candidate_id);
        }
    }

    /// Answers a heartbeat of the current term.
    pub fn heartbeat(&mut self, leader_id: NodeId)
        requires
            old(self).wf(),
        ensures
            final(self).wf(),
            final(self).snapshot() == after(
                old(self).snapshot(),
                on_heartbeat(old(self).node(), leader_id),
            ),
    {
        let ghost before = self.snapshot();
        self.hear_from(leader_id);
        let from = self.id;
        let term = self.state.current_term;
        self.send(leader_id, Command::AppendResponse { term, from, index: 0, success: true });
        assert(self.snapshot().sent =~= before.sent + on_heartbeat(
            old(self).node(),
            leader_id,
        ).messages);
        assert(self.snapshot().queued =~= before.queued + Seq::<InstructionModel>::empty());
    }

    /// Takes the entries of an append request of the current term, or
    /// refuses them.
    pub fn append_entries(
        &mut self,
        leader_id: NodeId,
        prev_index: LogIndex,
        prev_term: Term,
        entries: Vec<Entry>,
        leader_commit: LogIndex,
    )
        requires
            old(self).wf(),
        ensures
            final(self).wf(),
            final(self).snapshot() == after(
                old(self).snapshot(),
                on_append_entries(
                    old(self).node(),
                    leader_id,
                    prev_index,
                    prev_term,
                    entries_model(entries@),
                    leader_commit,
                ),
            ),
    {
        let ghost n = self.node();
        let ghost before = self.snapshot();
        let ghost es = entries_model(entries@);
        self.hear_from(leader_id);
        let ghost m = self.node();
        let numbered = numbered_from(prev_index, &entries);
        let anchored = prev_index == 0 || match self.log.term_at(prev_index) {
            Some(term) => term == prev_term,
            None => false,
        };
        if !numbered || !anchored {
            self.reject(leader_id);
            return ;
        }
        let k = find_first_new(&self.log, prev_index, &entries);
        let count = entries.len();
        if k < count && prev_index + (k as u64) < self.log.last_index() && prev_index + (k as u64)
            < self.state.commit_index {
            self.reject(leader_id);
            return ;
        }
        assert(acceptable(n, prev_index, prev_term, es));
        let ghost log = merged(n.log, prev_index, es);
        if k < count {
            proof {
                if k > 0 {
                    lemma_first_new_held(n.log, prev_index, es, k as int - 1);
                }
            }
            let mut entries = entries;
            let tail = entries.split_off(k);
            assert(entries_model(tail@) =~= es.subrange(k as int, es.len() as int));
            let cut = self.log.truncate_from(prev_index + k as u64 + 1, self.state.commit_index);
            let appended = self.log.append(tail);
            assert(cut is Ok && appended is Ok);
            assert(self.log@ =~= log);
        }
        assert(self.log@ == log);
        let reach = if leader_commit <= self.log.last_index() {
            leader_commit
        } else {
            self.log.last_index()
        };
        let commit = if reach > self.state.commit_index {
            reach
        } else {
            self.state.commit_index
        };
        let ghost kept = self.node();
        self.commit(commit);
        let from = self.id;
        let term = self.state.current_term;
        self.send(
            leader_id,
            Command::AppendResponse {
                term,
                from,
                index: prev_index + count as u64,
                success: true,
            },
        );
        proof {
            let o = on_append_entries(n, leader_id, prev_index, prev_term, es, leader_commit);
            assert(kept == (NodeModel { log, ..m }));
            assert(self.snapshot().sent =~= before.sent + o.messages);
            assert(self.snapshot().queued =~= before.queued + o.instructions);
        }
    }

    /// What a follower does with a command whose term is not above its own.
    pub fn handle(self, cmd: Command) -> (r: Result<RaftHandle, RaftError>)
        requires
            self.wf(),
            !crate::node::outranks(self.node(), cmd@),
        ensures
            follows(self.snapshot(), follower_step(self.node(), cmd@), r),
    {
        let ghost before = self.snapshot();
        let mut raft = self;
        match cmd {
            Command::Tick { now, seed } => {
                raft.now = now;
                raft.seed = seed;
                if raft.needs_election() {
                    let ghost m = raft.node();
                    let candidate = raft.into_candidate();
                    assert(campaign(candidate.node()) == campaign(m));
                    candidate.seek_election()
                } else {
                    assert(raft.snapshot().sent =~= before.sent + Seq::<MessageModel>::empty());
                    assert(raft.snapshot().queued =~= before.queued + Seq::<
                        InstructionModel,
                    >::empty());
                    Ok(RaftHandle::Follower(raft))
                }
            },
            Command::Timeout => {
                let ghost m = raft.node();
                let candidate = raft.into_candidate();
                assert(campaign(candidate.node()) == campaign(m));
                candidate.seek_election()
            },
            Command::Heartbeat { term, leader_id } => {
                if term >= raft.state.current_term {
                    raft.heartbeat(leader_id);
                } else {
                    raft.reject(leader_id);
                }
                Ok(RaftHandle::Follower(raft))
            },
            Command::AppendEntries {
                term,
                leader_id,
                prev_index,
                prev_term,
                entries,
                leader_commit,
            } => {
                proof {
                    crate::raft::lemma_append_entries_model(cmd);
                }
                if term >= raft.state.current_term {
                    raft.append_entries(leader_id, prev_index, prev_term, entries, leader_commit);
                } else {
                    raft.reject(leader_id);
                }
                Ok(RaftHandle::Follower(raft))
            },
            Command::VoteRequest { term, candidate_id, last_term, last_index } => {
                raft.vote_request(term, candidate_id, last_term, last_index);
                Ok(RaftHandle::Follower(raft))
            },
            other => {
                raft.other(other);
                Ok(RaftHandle::Follower(raft))
            },
        }
    }
}

/// Up to the first new entry the log holds what `es` holds, and at the
/// first new entry it does not.
pub proof fn lemma_first_new_held(
    log: Seq<EntryModel>,
    prev_index: LogIndex,
    es: Seq<EntryModel>,
    j: int,
)
    requires
        0 <= j < first_new(log, prev_index, es, 0),
    ensures
        prev_index + j < log.len(),
        log[prev_index + j].term == es[j].term,
{
    lemma_first_new_scan(log, prev_index, es, 0, j);
}

/// A scan that starts at `k` and ends after `j` has passed `j`.
pub proof fn lemma_first_new_scan(
    log: Seq<EntryModel>,
    prev_index: LogIndex,
    es: Seq<EntryModel>,
    k: int,
    j: int,
)
    requires
        0 <= k <= j < first_new(log, prev_index, es, k),
    ensures
        j < es.len(),
        prev_index + j < log.len(),
        log[prev_index + j].term == es[j].term,
    decreases es.len() - k,
{
    if k < es.len() {
        if k < j {
            lemma_first_new_scan(log, prev_index, es, k + 1, j);
        }
    }
}

impl Apply for Raft<Follower> {
    open spec fn before(&self) -> Snapshot {
        self.snapshot()
    }

    fn apply(self, cmd: Command) -> (r: Result<RaftHandle, RaftError>) {
        match self.outranked_by(&cmd) {
            Some(term) => self.yield_to(term).handle(cmd),
            None => self.handle(cmd),
        }
    }
}

/// The first new entry lies between where the scan starts and the end of
/// the entries.
pub proof fn lemma_first_new_bounds(
    log: Seq<EntryModel>,
    prev_index: LogIndex,
    es: Seq<EntryModel>,
    k: int,
)
    requires
        0 <= k <= es.len(),
    ensures
        k <= first_new(log, prev_index, es, k) <= es.len(),
        first_new(log, prev_index, es, k) < es.len() ==> prev_index + first_new(
            log,
            prev_index,
            es,
            k,
        ) >= log.len() || log[prev_index + first_new(log, prev_index, es, k)].term
            != es[first_new(log, prev_index, es, k)].term,
    decreases es.len() - k,
{
    if k < es.len() && !(prev_index + k >= log.len() || log[prev_index + k].term != es[k].term) {
        lemma_first_new_bounds(log, prev_index, es, k + 1);
    }
}

} // verus!
