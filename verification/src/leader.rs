use vstd::prelude::*;
use crate::election::quorum;
use crate::error::RaftError;
use crate::log::{last_term, term_at};
use crate::node::{
    committing, denying, otherwise, quiet, rejecting, ticked, to_peer, NodeModel, Outcome,
    RoleModel,
};
use crate::progress::{
    acks, advanced, initial, position, retreated, NodeProgress, ReplicationProgress,
};
use crate::candidate::Candidate;
use crate::fsm::InstructionModel;
use crate::node::node_wf;
use crate::progress::{lemma_position, lemma_position_skip};
use crate::raft::{
    after, Apply, follows, ClientOp, ClientOpModel, Command, CommandModel, Entry, EntryModel, EntryType,
    LogIndex, NodeId, Payload, Raft, RaftHandle, RaftRole, Role, Snapshot,
};
use crate::rpc::MessageModel;

verus! {

/// The append request a leader sends to the member with progress `e`: every
/// entry from `next_index` on, preceded by the index and term of the entry
/// before them.
pub open spec fn append_for(n: NodeModel, e: NodeProgress) -> CommandModel {
    let prev_index = (e.next_index - 1) as u64;
    CommandModel::AppendEntries {
        term: n.state.current_term,
        leader_id: n.id,
        prev_index,
        prev_term: match term_at(n.log, prev_index) {
            Some(term) => term,
            None => 0,
        },
        entries: n.log.subrange(prev_index as int, n.log.len() as int),
        leader_commit: n.state.commit_index,
    }
}

/// The append requests of one round, one to each peer in the configured
/// order.
pub open spec fn appends(n: NodeModel) -> Seq<MessageModel> {
    Seq::new(
        n.peers.len(),
        |i: int| to_peer(n, n.peers[i], append_for(n, n.role->Leader_progress[i])),
    )
}

/// The empty append requests a new leader announces itself with.
pub open spec fn announcements(n: NodeModel) -> Seq<MessageModel> {
    Seq::new(
        n.peers.len(),
        |i: int|
            to_peer(
                n,
                n.peers[i],
                CommandModel::AppendEntries {
                    term: n.state.current_term,
                    leader_id: n.id,
                    prev_index: n.log.len() as u64,
                    prev_term: last_term(n.log),
                    entries: Seq::empty(),
                    leader_commit: n.state.commit_index,
                },
            ),
    )
}

/// The entry a leader appends with `payload`.
pub open spec fn next_entry(n: NodeModel, payload: Payload) -> EntryModel {
    EntryModel { payload, term: n.state.current_term, index: (n.log.len() + 1) as u64 }
}

/// Whether the log has room for one more entry.
pub open spec fn has_room(log: Seq<EntryModel>) -> bool {
    log.len() + 1 < u64::MAX
}

/// What winning an election does to a node: it announces itself to every
/// peer with an empty append request, is due for a round of appends at
/// once, and appends a no-op entry of its term.
pub open spec fn lead(n: NodeModel) -> Result<Outcome, RaftError> {
    if !has_room(n.log) {
        Err(RaftError::LogFull)
    } else {
        let last = n.log.len() as u64;
        let entry = next_entry(n, Payload::Command(CommandModel::Noop));
        Ok(
            Outcome {
                node: NodeModel {
                    log: n.log.push(entry),
                    role: RoleModel::Leader {
                        progress: advanced(initial(n.peers, n.id, last), n.id, entry.index),
                        heartbeat_time: n.now,
                        heartbeat_timeout: 0,
                    },
                    ..n
                },
                messages: announcements(n),
                instructions: Seq::empty(),
            },
        )
    }
}

/// Whether a leader may commit index `i`: it lies above the commit index,
/// the entry there is of the leader's term, and a quorum of the members is
/// known to hold it.
pub open spec fn committable(n: NodeModel, progress: Seq<NodeProgress>, i: int) -> bool {
    &&& n.state.commit_index < i <= n.log.len()
    &&& n.log[i - 1].term == n.state.current_term
    &&& acks(progress, i as u64) >= quorum(progress.len())
}

/// The highest committable index at or below `i`, or the commit index if
/// there is none.
pub open spec fn highest_committable(n: NodeModel, progress: Seq<NodeProgress>, i: int) -> int
    decreases i,
{
    if i <= n.state.commit_index {
        n.state.commit_index as int
    } else if committable(n, progress, i) {
        i
    } else {
        highest_committable(n, progress, i - 1)
    }
}

/// `highest_committable` is what its name says.
pub proof fn lemma_highest_committable(n: NodeModel, progress: Seq<NodeProgress>, i: int)
    requires
        n.state.commit_index <= n.log.len(),
    ensures
        ({
            let h = highest_committable(n, progress, i);
            &&& h == n.state.commit_index || committable(n, progress, h)
            &&& i >= n.state.commit_index ==> n.state.commit_index <= h <= i
            &&& forall|j: int| h < j <= i ==> !committable(n, progress, j)
        }),
    decreases i,
{
    if i > n.state.commit_index && !committable(n, progress, i) {
        lemma_highest_committable(n, progress, i - 1);
    }
}

/// What a round of appends does to a leader whose heartbeat is due.
pub open spec fn on_heartbeat_due(n: NodeModel) -> Outcome {
    Outcome {
        node: NodeModel {
            role: RoleModel::Leader {
                progress: n.role->Leader_progress,
                heartbeat_time: n.now,
                heartbeat_timeout: n.heartbeat_interval,
            },
            ..n
        },
        messages: appends(n),
        instructions: Seq::empty(),
    }
}

/// Whether the heartbeat of a leader is due at clock reading `now`.
pub open spec fn heartbeat_due(n: NodeModel, now: u64) -> bool {
    now >= n.role->Leader_heartbeat_time + n.role->Leader_heartbeat_timeout
}

/// The node with its replication progress replaced.
pub open spec fn with_progress(n: NodeModel, progress: Seq<NodeProgress>) -> NodeModel {
    NodeModel {
        role: RoleModel::Leader {
            progress,
            heartbeat_time: n.role->Leader_heartbeat_time,
            heartbeat_timeout: n.role->Leader_heartbeat_timeout,
        },
        ..n
    }
}

/// What an answer of the current term to an append does to a leader. An
/// answer from a stranger, from the leader itself, or one that claims more
/// than the leader's log holds changes nothing.
pub open spec fn on_append_response(
    n: NodeModel,
    from: NodeId,
    index: LogIndex,
    success: bool,
) -> Outcome {
    let progress = n.role->Leader_progress;
    if position(progress, from) >= n.peers.len() {
        quiet(n)
    } else if !success {
        quiet(with_progress(n, retreated(progress, from)))
    } else if index > n.log.len() {
        quiet(n)
    } else {
        let told = advanced(progress, from, index);
        committing(
            with_progress(n, told),
            highest_committable(n, told, n.log.len() as int) as u64,
            Seq::empty(),
        )
    }
}

/// What a client's command does to a leader: it becomes the next entry of
/// the leader's log.
pub open spec fn on_client_append(n: NodeModel, data: Seq<u8>) -> Result<Outcome, RaftError> {
    if !has_room(n.log) {
        Err(RaftError::LogFull)
    } else {
        let entry = next_entry(n, Payload::Data(data));
        Ok(
            quiet(
                NodeModel {
                    log: n.log.push(entry),
                    ..with_progress(n, advanced(n.role->Leader_progress, n.id, entry.index))
                },
            ),
        )
    }
}

/// What a command does to a leader whose term is at least the command's.
pub open spec fn leader_step(n: NodeModel, c: CommandModel) -> Result<Outcome, RaftError> {
    match c {
        CommandModel::Tick { now, seed } => {
            let m = ticked(n, now, seed);
            if heartbeat_due(m, now) {
                Ok(on_heartbeat_due(m))
            } else {
                Ok(quiet(m))
            }
        },
        CommandModel::AppendResponse { term, from, index, success } => {
            if term == n.state.current_term {
                Ok(on_append_response(n, from, index, success))
            } else {
                Ok(quiet(n))
            }
        },
        CommandModel::VoteRequest { candidate_id, .. } => Ok(denying(n, candidate_id)),
        CommandModel::AppendEntries { leader_id, .. } => Ok(rejecting(n, leader_id)),
        CommandModel::Heartbeat { leader_id, .. } => Ok(rejecting(n, leader_id)),
        CommandModel::ClientRequest { op: ClientOpModel::Mutate(data), .. } => on_client_append(
            n,
            data,
        ),
        _ => Ok(otherwise(n, c)),
    }
}

/// Role state of a leader.
#[derive(Debug)]
pub struct Leader {
    /// What the leader knows about the log of each member.
    pub progress: ReplicationProgress,
    /// The clock reading at which the heartbeat timer was last started.
    pub heartbeat_time: u64,
    /// How long the heartbeat timer runs, in milliseconds.
    pub heartbeat_timeout: u64,
}

impl Role for Leader {
    open spec fn model(&self) -> RoleModel {
        RoleModel::Leader {
            progress: self.progress@,
            heartbeat_time: self.heartbeat_time,
            heartbeat_timeout: self.heartbeat_timeout,
        }
    }

    fn term(&mut self, _term: u64) {
    }

    fn role(&self) -> RaftRole {
        RaftRole::Leader
    }
}

/// Among the progress of a new leader, the leader's own entry is the one
/// after its peers'.
pub proof fn lemma_own_position(peers: Seq<NodeId>, id: NodeId, p: Seq<NodeProgress>)
    requires
        !peers.contains(id),
        p.len() == peers.len() + 1,
        forall|i: int| 0 <= i < peers.len() ==> (#[trigger] p[i]).id == peers[i],
        p[peers.len() as int].id == id,
    ensures
        position(p, id) == peers.len(),
{
    assert forall|j: int| 0 <= j < peers.len() implies (#[trigger] p[j]).id != id by {
        assert(peers.contains(peers[j]));
    }
    lemma_position_skip(p, id, peers.len() as int);
}

impl Raft<Candidate> {
    /// Takes office after a won election: announces the new leader to every
    /// peer with an empty append request, starts tracking their progress,
    /// arms the heartbeat timer so that it is due at once, and appends a
    /// no-op entry of the new term. Fails when the log has no room left.
    pub fn lead(self) -> (r: Result<RaftHandle, RaftError>)
        requires
            self.wf(),
        ensures
            follows(self.snapshot(), lead(self.node()), r),
    {
        let ghost n = self.node();
        let ghost before = self.snapshot();
        let last = self.log.last_index();
        if last >= u64::MAX - 1 {
            return Err(RaftError::LogFull);
        }
        let mut raft = self;
        let peers = raft.config.peer_ids();
        let mut progress = ReplicationProgress::new(&peers, raft.id, last);
        let prev_term = raft.log.last_term();
        let term = raft.state.current_term;
        let leader_id = raft.id;
        let leader_commit = raft.state.commit_index;
        let mut i: usize = 0;
        while i < peers.len()
            invariant
                i <= peers.len(),
                peers@ == n.peers,
                raft.node() == n,
                last == n.log.len(),
                prev_term == last_term(n.log),
                term == n.state.current_term,
                leader_id == n.id,
                leader_commit == n.state.commit_index,
                raft.snapshot().queued == before.queued,
                raft.snapshot().sent == before.sent + announcements(n).subrange(0, i as int),
            decreases peers.len() - i,
        {
            let command = Command::AppendEntries {
                term,
                leader_id,
                prev_index: last,
                prev_term,
                entries: Vec::new(),
                leader_commit,
            };
            proof {
                crate::raft::lemma_append_entries_model(command);
                assert(command@->entries =~= Seq::<EntryModel>::empty());
            }
            raft.send(peers[i], command);
            assert(raft.snapshot().sent =~= before.sent + announcements(n).subrange(
                0,
                i as int + 1,
            ));
            i += 1;
        }
        assert(announcements(n).subrange(0, i as int) =~= announcements(n));
        let entry = Entry {
            entry_type: EntryType::Command { command: Command::Noop },
            term,
            index: last + 1,
        };
        let ghost added = next_entry(n, Payload::Command(CommandModel::Noop));
        assert(entry@ == added);
        let mut batch: Vec<Entry> = Vec::new();
        batch.push(entry);
        assert(crate::raft::entries_model(batch@) =~= seq![added]);
        let appended = raft.log.append(batch);
        assert(appended is Ok);
        assert(raft.log@ =~= n.log.push(added));
        proof {
            lemma_own_position(n.peers, n.id, initial(n.peers, n.id, last));
        }
        progress.advance(leader_id, last + 1);
        let now = raft.now;
        let leader = Raft {
            id: raft.id,
            config: raft.config,
            log: raft.log,
            state: raft.state,
            role: Leader { progress, heartbeat_time: now, heartbeat_timeout: 0 },
            now: raft.now,
            seed: raft.seed,
            outbox: raft.outbox,
            instructions: raft.instructions,
        };
        let handle = RaftHandle::Leader(leader);
        proof {
            let o = lead(n)->Ok_0;
            assert(handle.snapshot().queued =~= before.queued + o.instructions);
            assert(handle.snapshot().node == o.node);
            assert(handle.snapshot() == after(before, o));
            assert(node_wf(o.node));
        }
        Ok(handle)
    }
}

impl Raft<Leader> {
    /// Sends every peer the entries from its `next_index` on, or an empty
    /// append request if there are none, and arms the heartbeat timer anew.
    pub fn heartbeat(self) -> (r: Raft<Leader>)
        requires
            self.wf(),
        ensures
            r.wf(),
            r.snapshot() == after(self.snapshot(), on_heartbeat_due(self.node())),
    {
        let ghost n = self.node();
        let ghost before = self.snapshot();
        let mut raft = self;
        let peers = raft.config.peer_ids();
        let last = raft.log.last_index();
        let term = raft.state.current_term;
        let leader_id = raft.id;
        let leader_commit = raft.state.commit_index;
        let mut i: usize = 0;
        while i < peers.len()
            invariant
                i <= peers.len(),
                peers@ == n.peers,
                raft.node() == n,
                node_wf(n),
                n.role is Leader,
                last == n.log.len(),
                term == n.state.current_term,
                leader_id == n.id,
                leader_commit == n.state.commit_index,
                raft.snapshot().queued == before.queued,
                raft.snapshot().sent == before.sent + appends(n).subrange(0, i as int),
            decreases peers.len() - i,
        {
            let e = raft.role.progress.at(i);
            let prev_index = e.next_index - 1;
            let prev_term = match raft.log.term_at(prev_index) {
                Some(t) => t,
                None => 0,
            };
            let entries = match raft.log.range(e.next_index, last + 1) {
                Ok(entries) => entries,
                Err(_) => Vec::new(),
            };
            let command = Command::AppendEntries {
                term,
                leader_id,
                prev_index,
                prev_term,
                entries,
                leader_commit,
            };
            proof {
                crate::raft::lemma_append_entries_model(command);
                assert(command@->entries =~= n.log.subrange(
                    prev_index as int,
                    n.log.len() as int,
                ));
                assert(command@ == append_for(n, e));
            }
            raft.send(peers[i], command);
            assert(raft.snapshot().sent =~= before.sent + appends(n).subrange(0, i as int + 1));
            i += 1;
        }
        assert(appends(n).subrange(0, i as int) =~= appends(n));
        raft.role.heartbeat_time = raft.now;
        raft.role.heartbeat_timeout = raft.config.heartbeat_interval_ms;
        assert(raft.snapshot().queued =~= before.queued + Seq::<InstructionModel>::empty());
        raft
    }

    /// Whether the heartbeat timer has run out at the clock reading of the
    /// last tick.
    pub fn needs_heartbeat(&self) -> (due: bool)
        ensures
            due == heartbeat_due(self.node(), self.now),
    {
        self.now >= self.role.heartbeat_time && self.now - self.role.heartbeat_time
            >= self.role.heartbeat_timeout
    }

    /// The highest index above the commit index that holds an entry of the
    /// current term and is known to be replicated on a quorum; the commit
    /// index itself if there is none.
    pub fn commit_target(&self) -> (target: LogIndex)
        requires
            self.wf(),
        ensures
            target == highest_committable(
                self.node(),
                self.role.progress@,
                self.log@.len() as int,
            ),
            self.state.commit_index <= target <= self.log@.len(),
    {
        let ghost n = self.node();
        let ghost p = self.role.progress@;
        let members = self.role.progress.len();
        let need = members / 2 + 1;
        let mut i = self.log.last_index();
        proof {
            lemma_highest_committable(n, p, n.log.len() as int);
        }
        while i > self.state.commit_index
            invariant
                self.state.commit_index <= i <= self.log@.len(),
                n == self.node(),
                p == self.role.progress@,
                members == p.len(),
                need == quorum(p.len()),
                highest_committable(n, p, n.log.len() as int) == highest_committable(
                    n,
                    p,
                    i as int,
                ),
            decreases i,
        {
            let held = match self.log.term_at(i) {
                Some(t) => t == self.state.current_term,
                None => false,
            };
            if held && self.role.progress.acks(i) >= need {
                return i;
            }
            i -= 1;
        }
        i
    }

    /// Takes an answer of the current term to an append down.
    pub fn append_response(self, from: NodeId, index: LogIndex, success: bool) -> (r: Raft<Leader>)
        requires
            self.wf(),
        ensures
            r.wf(),
            r.snapshot() == after(
                self.snapshot(),
                on_append_response(self.node(), from, index, success),
            ),
    {
        let ghost n = self.node();
        let ghost before = self.snapshot();
        let mut raft = self;
        let peers = raft.config.peers.len();
        proof {
            lemma_position(n.role->Leader_progress, from, 0);
        }
        if raft.role.progress.find(from) >= peers {
            assert(raft.snapshot().sent =~= before.sent + Seq::<MessageModel>::empty());
            assert(raft.snapshot().queued =~= before.queued + Seq::<InstructionModel>::empty());
            return raft;
        }
        if !success {
            raft.role.progress.retreat(from);
            assert(raft.snapshot().sent =~= before.sent + Seq::<MessageModel>::empty());
            assert(raft.snapshot().queued =~= before.queued + Seq::<InstructionModel>::empty());
            return raft;
        }
        if index > raft.log.last_index() {
            assert(raft.snapshot().sent =~= before.sent + Seq::<MessageModel>::empty());
            assert(raft.snapshot().queued =~= before.queued + Seq::<InstructionModel>::empty());
            return raft;
        }
        raft.role.progress.advance(from, index);
        let target = raft.commit_target();
        proof {
            let told = advanced(n.role->Leader_progress, from, index);
            assert(raft.node() == with_progress(n, told));
            assert(highest_committable(raft.node(), told, n.log.len() as int)
                == highest_committable(n, told, n.log.len() as int)) by {
                lemma_same_target(raft.node(), n, told, n.log.len() as int);
            }
        }
        raft.commit(target);
        raft
    }

    /// Appends a client's command to the log as an entry of the current
    /// term. Fails when the log has no room left.
    pub fn client_append(self, data: Vec<u8>) -> (r: Result<Raft<Leader>, RaftError>)
        requires
            self.wf(),
        ensures
            match on_client_append(self.node(), data@) {
                Ok(o) => r matches Ok(raft) && raft.wf() && raft.snapshot() == after(
                    self.snapshot(),
                    o,
                ),
                Err(e) => r matches Err(x) && x == e,
            },
    {
        let ghost n = self.node();
        let ghost before = self.snapshot();
        let last = self.log.last_index();
        if last >= u64::MAX - 1 {
            return Err(RaftError::LogFull);
        }
        let mut raft = self;
        let ghost added = next_entry(n, Payload::Data(data@));
        let entry = Entry {
            entry_type: EntryType::Entry { data },
            term: raft.state.current_term,
            index: last + 1,
        };
        assert(entry@ == added);
        let mut batch: Vec<Entry> = Vec::new();
        batch.push(entry);
        assert(crate::raft::entries_model(batch@) =~= seq![added]);
        let appended = raft.log.append(batch);
        assert(appended is Ok);
        assert(raft.log@ =~= n.log.push(added));
        proof {
            lemma_own_position(n.peers, n.id, n.role->Leader_progress);
        }
        let id = raft.id;
        raft.role.progress.advance(id, last + 1);
        assert(raft.snapshot().sent =~= before.sent + Seq::<MessageModel>::empty());
        assert(raft.snapshot().queued =~= before.queued + Seq::<InstructionModel>::empty());
        Ok(raft)
    }

    /// What a leader does with a command whose term is not above its own.
    pub fn handle(self, cmd: Command) -> (r: Result<RaftHandle, RaftError>)
        requires
            self.wf(),
            !crate::node::outranks(self.node(), cmd@),
        ensures
            follows(self.snapshot(), leader_step(self.node(), cmd@), r),
    {
        let ghost before = self.snapshot();
        let mut raft = self;
        match cmd {
            Command::Tick { now, seed } => {
                raft.now = now;
                raft.seed = seed;
                if raft.needs_heartbeat() {
                    Ok(RaftHandle::Leader(raft.heartbeat()))
                } else {
                    assert(raft.snapshot().sent =~= before.sent + Seq::<MessageModel>::empty());
                    assert(raft.snapshot().queued =~= before.queued + Seq::<
                        InstructionModel,
                    >::empty());
                    Ok(RaftHandle::Leader(raft))
                }
            },
            Command::AppendResponse { term, from, index, success } => {
                if term == raft.state.current_term {
                    Ok(RaftHandle::Leader(raft.append_response(from, index, success)))
                } else {
                    assert(raft.snapshot().sent =~= before.sent + Seq::<MessageModel>::empty());
                    assert(raft.snapshot().queued =~= before.queued + Seq::<
                        InstructionModel,
                    >::empty());
                    Ok(RaftHandle::Leader(raft))
                }
            },
            Command::VoteRequest { candidate_id, .. } => {
                raft.deny(candidate_id);
                Ok(RaftHandle::Leader(raft))
            },
            Command::AppendEntries { leader_id, .. } => {
                raft.reject(leader_id);
                Ok(RaftHandle::Leader(raft))
            },
            Command::Heartbeat { leader_id, .. } => {
                raft.reject(leader_id);
                Ok(RaftHandle::Leader(raft))
            },
            Command::ClientRequest { id, op: ClientOp::Mutate(data) } => {
                match raft.client_append(data) {
                    Ok(raft) => Ok(RaftHandle::Leader(raft)),
                    Err(e) => Err(e),
                }
            },
            other => {
                raft.other(other);
                Ok(RaftHandle::Leader(raft))
            },
        }
    }
}

/// The highest committable index depends on the node only through its
/// commit index, its term and its log.
pub proof fn lemma_same_target(a: NodeModel, b: NodeModel, p: Seq<NodeProgress>, i: int)
    requires
        a.state == b.state,
        a.log == b.log,
    ensures
        highest_committable(a, p, i) == highest_committable(b, p, i),
    decreases i,
{
    if i > a.state.commit_index && !committable(a, p, i) {
        lemma_same_target(a, b, p, i - 1);
    }
}

impl Apply for Raft<Leader> {
    open spec fn before(&self) -> Snapshot {
        self.snapshot()
    }

    fn apply(self, cmd: Command) -> (r: Result<RaftHandle, RaftError>) {
        match self.outranked_by(&cmd) {
            Some(term) => self.yield_to(term).handle(cmd),
            None => self.handle(cmd),
        }
    }
}

} // verus!
