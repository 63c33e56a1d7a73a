use vstd::prelude::*;
use crate::candidate::Candidate;
use crate::config::{
    config_valid, peers_valid, timing_valid, ConfigError, ConfigModel, RaftConfig,
};
use crate::error::RaftError;
use crate::follower::Follower;
use crate::fsm::{instructions_model, Instruction, InstructionModel};
use crate::leader::Leader;
use crate::log::Log;
use crate::node::{
    as_follower, at_term, kind, newly_committed, node_wf, on_term, step, NodeModel, Outcome,
    RoleModel,
};
use crate::rpc::{messages_model, Address, MessageModel, RpcMessage};

verus! {

/// An id that uniquely identifies a member of the cluster.
pub type NodeId = u32;

/// A logical election epoch.
pub type Term = u64;

/// A 1-based position in the log; 0 means "before the log".
pub type LogIndex = u64;

/// Identifies a client request so that its answer can be routed back.
pub type RequestId = u64;

/// An IPv4 socket address as plain numbers.
#[derive(Clone, Copy, Debug, PartialEq, Eq, Structural)]
pub struct SocketAddress {
    /// The address, most significant octet first.
    pub ip: u32,
    /// The TCP port.
    pub port: u16,
}

/// Contains information about nodes in raft cluster.
#[derive(Clone, Copy, Debug, PartialEq, Eq, Structural)]
pub struct Node {
    /// The id of the node.
    pub id: NodeId,
    /// The socket address for the TCP connection.
    pub addr: SocketAddress,
}

/// Volatile and persistent state that is common to all roles.
#[derive(Clone, Copy, Debug, PartialEq, Eq, Structural)]
pub struct State {
    /// The current term of the state machine. It only ever grows: when an
    /// election begins and when a higher term is seen in a message.
    pub current_term: Term,
    /// Who the node has voted for in the current election.
    pub voted_for: Option<NodeId>,
    /// The current commit index of the replicated log.
    pub commit_index: LogIndex,
    /// The highest index already handed to the state machine.
    pub last_applied: LogIndex,
    /// The clock reading at which the election timer was last started.
    pub election_time: Option<u64>,
    /// The timeout for the current election, in milliseconds.
    pub election_timeout: Option<u64>,
    /// The min timeout that can be selected randomly.
    pub min_election_timeout: u64,
    /// The max timeout that can be selected randomly.
    pub max_election_timeout: u64,
}

impl State {
    /// The clock reading at which the election timer runs out, if it runs.
    pub open spec fn election_deadline(self) -> Option<int> {
        match (self.election_time, self.election_timeout) {
            (Some(time), Some(timeout)) => Some(time + timeout),
            _ => None,
        }
    }

    /// Whether the election timer has run out at clock reading `now`.
    pub open spec fn election_due(self, now: u64) -> bool {
        match self.election_deadline() {
            Some(deadline) => now >= deadline,
            None => false,
        }
    }

    /// The timeout picked from the sample `seed`: it lies between the
    /// minimum and the maximum, both included.
    pub open spec fn picked_timeout(self, seed: u64) -> u64 {
        (self.min_election_timeout + seed % ((self.max_election_timeout
            - self.min_election_timeout + 1) as u64)) as u64
    }

    /// Whether the election timer has run out at clock reading `now`.
    pub fn timer_expired(&self, now: u64) -> (due: bool)
        ensures
            due == self.election_due(now),
    {
        match (self.election_time, self.election_timeout) {
            (Some(time), Some(timeout)) => now >= time && now - time >= timeout,
            _ => false,
        }
    }

    /// Picks an election timeout between the minimum and the maximum from
    /// the sample `seed`.
    pub fn pick_timeout(&self, seed: u64) -> (timeout: u64)
        requires
            self.min_election_timeout <= self.max_election_timeout,
            self.max_election_timeout - self.min_election_timeout < u64::MAX,
        ensures
            timeout == self.picked_timeout(seed),
            self.min_election_timeout <= timeout <= self.max_election_timeout,
    {
        let span = self.max_election_timeout - self.min_election_timeout + 1;
        self.min_election_timeout + seed % span
    }
}

impl Default for State {
    fn default() -> (s: State)
        ensures
            s == (State {
                current_term: 0,
                voted_for: None,
                commit_index: 0,
                last_applied: 0,
                election_time: None,
                election_timeout: None,
                min_election_timeout: 10,
                max_election_timeout: 1000,
            }),
    {
        State {
            current_term: 0,
            voted_for: None,
            commit_index: 0,
            last_applied: 0,
            election_time: None,
            election_timeout: None,
            min_election_timeout: 10,
            max_election_timeout: 1000,
        }
    }
}

/// What a client asks of the cluster.
#[derive(Debug, PartialEq, Eq)]
pub enum ClientOp {
    /// Append an opaque application command to the replicated log.
    Mutate(Vec<u8>),
    /// Read from the local state machine.
    Query(Vec<u8>),
}

/// What a client is told.
#[derive(Debug, PartialEq, Eq)]
pub enum ClientResult {
    /// The bytes the state machine answered a query with.
    State(Vec<u8>),
}

/// Commands that can be applied to the state machine.
#[derive(Debug, PartialEq, Eq)]
pub enum Command {
    /// Move the state machine forward. Carries the host's reading of its
    /// monotonic clock in milliseconds and a fresh random sample.
    Tick { now: u64, seed: u64 },
    /// Request that this instance vote for the provided node.
    VoteRequest {
        /// The term of the candidate.
        term: Term,
        /// The id of the candidate requesting the vote.
        candidate_id: NodeId,
        /// The term of the last entry in the candidate's log.
        last_term: Term,
        /// The index of the last entry in the candidate's log.
        last_index: LogIndex,
    },
    /// Respond to a vote from another node.
    VoteResponse {
        /// The term of the voter.
        term: Term,
        /// The id of the voter responding to the vote.
        from: NodeId,
        /// Whether the vote was granted to the candidate.
        granted: bool,
    },
    /// Request from another node to append entries to our log.
    AppendEntries {
        /// The term of the node requesting entries be appended to our commit log.
        term: Term,
        /// The id of the node sending entries.
        leader_id: NodeId,
        /// The index of the entry that precedes the new ones.
        prev_index: LogIndex,
        /// The term of the entry that precedes the new ones.
        prev_term: Term,
        /// The entries to append to our commit log.
        entries: Vec<Entry>,
        /// The highest index the leader knows to be committed.
        leader_commit: LogIndex,
    },
    /// Answer to a request to append entries.
    AppendResponse {
        /// The term of the responder.
        term: Term,
        /// The id of the responder.
        from: NodeId,
        /// On success the highest index now replicated; on failure the
        /// responder's last index.
        index: LogIndex,
        /// Whether the entries were accepted.
        success: bool,
    },
    /// Heartbeat from another node.
    Heartbeat {
        /// The term of the node sending a heartbeat.
        term: Term,
        /// The id of the node sending a heartbeat.
        leader_id: NodeId,
    },
    /// Timeout on an event (i.e. election).
    Timeout,
    /// Don't do anything.
    Noop,
    /// A request made by a client of the cluster.
    ClientRequest { id: RequestId, op: ClientOp },
    /// The answer to a client.
    ClientResponse { id: RequestId, result: ClientResult },
}

/// The payload of a log entry.
#[derive(Debug, PartialEq, Eq)]
pub enum EntryType {
    /// An opaque application command.
    Entry { data: Vec<u8> },
    /// Reserved for membership changes.
    Config {},
    /// Internal control.
    Command { command: Command },
}

/// An entry in the commit log.
#[derive(Debug, PartialEq, Eq)]
pub struct Entry {
    /// The type of the entry
    pub entry_type: EntryType,
    /// The term of the entry.
    pub term: Term,
    /// The index of the entry within the commit log.
    pub index: LogIndex,
}

/// Mathematical value of a [`ClientOp`].
pub ghost enum ClientOpModel {
    Mutate(Seq<u8>),
    Query(Seq<u8>),
}

/// Mathematical value of a [`ClientResult`].
pub ghost enum ClientResultModel {
    State(Seq<u8>),
}

/// Mathematical value of a [`Command`].
pub ghost enum CommandModel {
    Tick { now: u64, seed: u64 },
    VoteRequest { term: Term, candidate_id: NodeId, last_term: Term, last_index: LogIndex },
    VoteResponse { term: Term, from: NodeId, granted: bool },
    AppendEntries {
        term: Term,
        leader_id: NodeId,
        prev_index: LogIndex,
        prev_term: Term,
        entries: Seq<EntryModel>,
        leader_commit: LogIndex,
    },
    AppendResponse { term: Term, from: NodeId, index: LogIndex, success: bool },
    Heartbeat { term: Term, leader_id: NodeId },
    Timeout,
    Noop,
    ClientRequest { id: RequestId, op: ClientOpModel },
    ClientResponse { id: RequestId, result: ClientResultModel },
}

/// Mathematical value of an [`EntryType`].
pub ghost enum Payload {
    Data(Seq<u8>),
    Config,
    Command(CommandModel),
}

/// Mathematical value of an [`Entry`].
pub ghost struct EntryModel {
    pub payload: Payload,
    pub term: Term,
    pub index: LogIndex,
}

impl View for ClientOp {
    type V = ClientOpModel;

    open spec fn view(&self) -> ClientOpModel {
        match *self {
            ClientOp::Mutate(data) => ClientOpModel::Mutate(data@),
            ClientOp::Query(query) => ClientOpModel::Query(query@),
        }
    }
}

impl View for ClientResult {
    type V = ClientResultModel;

    open spec fn view(&self) -> ClientResultModel {
        match *self {
            ClientResult::State(bytes) => ClientResultModel::State(bytes@),
        }
    }
}

/// The value of a command: every byte string and every entry by its value.
pub open spec fn command_model(c: Command) -> CommandModel
    decreases c,
{
    match c {
        Command::Tick { now, seed } => CommandModel::Tick { now, seed },
        Command::VoteRequest { term, candidate_id, last_term, last_index } => {
            CommandModel::VoteRequest { term, candidate_id, last_term, last_index }
        },
        Command::VoteResponse { term, from, granted } => CommandModel::VoteResponse {
            term,
            from,
            granted,
        },
        Command::AppendEntries { term, leader_id, prev_index, prev_term, entries, leader_commit } => {
            CommandModel::AppendEntries {
                term,
                leader_id,
                prev_index,
                prev_term,
                entries: Seq::new(
                    entries@.len(),
                    |i: int|
                        if 0 <= i < entries@.len() {
                            entry_model(entries@[i])
                        } else {
                            arbitrary()
                        },
                ),
                leader_commit,
            }
        },
        Command::AppendResponse { term, from, index, success } => CommandModel::AppendResponse {
            term,
            from,
            index,
            success,
        },
        Command::Heartbeat { term, leader_id } => CommandModel::Heartbeat { term, leader_id },
        Command::Timeout => CommandModel::Timeout,
        Command::Noop => CommandModel::Noop,
        Command::ClientRequest { id, op } => CommandModel::ClientRequest { id, op: op@ },
        Command::ClientResponse { id, result } => CommandModel::ClientResponse {
            id,
            result: result@,
        },
    }
}

/// The value of an entry.
pub open spec fn entry_model(e: Entry) -> EntryModel
    decreases e,
{
    EntryModel {
        payload: match e.entry_type {
            EntryType::Entry { data } => Payload::Data(data@),
            EntryType::Config {  } => Payload::Config,
            EntryType::Command { command } => Payload::Command(command_model(command)),
        },
        term: e.term,
        index: e.index,
    }
}

/// The values of a run of entries, in order.
pub open spec fn entries_model(es: Seq<Entry>) -> Seq<EntryModel> {
    Seq::new(es.len(), |i: int| entry_model(es[i]))
}

impl View for Command {
    type V = CommandModel;

    open spec fn view(&self) -> CommandModel {
        command_model(*self)
    }
}

impl View for Entry {
    type V = EntryModel;

    open spec fn view(&self) -> EntryModel {
        entry_model(*self)
    }
}

impl View for EntryType {
    type V = Payload;

    open spec fn view(&self) -> Payload {
        match *self {
            EntryType::Entry { data } => Payload::Data(data@),
            EntryType::Config {  } => Payload::Config,
            EntryType::Command { command } => Payload::Command(command_model(command)),
        }
    }
}

/// The entries carried by an append request are the values of its vector.
pub proof fn lemma_append_entries_model(c: Command)
    requires
        c is AppendEntries,
    ensures
        c@ is AppendEntries,
        c@->entries == entries_model(c->entries@),
{
    assert(c@->entries =~= entries_model(c->entries@));
}

/// Copies a byte string.
pub fn clone_bytes(bytes: &Vec<u8>) -> (r: Vec<u8>)
    ensures
        r@ == bytes@,
{
    bytes.clone()
}

/// Copies a run of entries.
pub fn clone_entries(entries: &Vec<Entry>) -> (r: Vec<Entry>)
    ensures
        entries_model(r@) == entries_model(entries@),
    decreases entries,
{
    let mut out: Vec<Entry> = Vec::new();
    let mut i: usize = 0;
    while i < entries.len()
        invariant
            i <= entries.len(),
            out.len() == i,
            forall|j: int| 0 <= j < i ==> out@[j]@ == entries@[j]@,
        decreases entries.len() - i,
    {
        let e = clone_entry(&entries[i]);
        out.push(e);
        i += 1;
    }
    assert(entries_model(out@) =~= entries_model(entries@));
    out
}

/// Copies an entry.
pub fn clone_entry(e: &Entry) -> (r: Entry)
    ensures
        r@ == e@,
    decreases e,
{
    let entry_type = match &e.entry_type {
        EntryType::Entry { data } => EntryType::Entry { data: clone_bytes(data) },
        EntryType::Config {  } => EntryType::Config {  },
        EntryType::Command { command } => EntryType::Command { command: clone_command(command) },
    };
    Entry { entry_type, term: e.term, index: e.index }
}

/// Copies a command.
pub fn clone_command(c: &Command) -> (r: Command)
    ensures
        r@ == c@,
    decreases c,
{
    match c {
        Command::Tick { now, seed } => Command::Tick { now: *now, seed: *seed },
        Command::VoteRequest { term, candidate_id, last_term, last_index } => {
            Command::VoteRequest {
                term: *term,
                candidate_id: *candidate_id,
                last_term: *last_term,
                last_index: *last_index,
            }
        },
        Command::VoteResponse { term, from, granted } => Command::VoteResponse {
            term: *term,
            from: *from,
            granted: *granted,
        },
        Command::AppendEntries { term, leader_id, prev_index, prev_term, entries, leader_commit } => {
            let copied = clone_entries(entries);
            let r = Command::AppendEntries {
                term: *term,
                leader_id: *leader_id,
                prev_index: *prev_index,
                prev_term: *prev_term,
                entries: copied,
                leader_commit: *leader_commit,
            };
            proof {
                lemma_append_entries_model(r);
                lemma_append_entries_model(*c);
            }
            r
        },
        Command::AppendResponse { term, from, index, success } => Command::AppendResponse {
            term: *term,
            from: *from,
            index: *index,
            success: *success,
        },
        Command::Heartbeat { term, leader_id } => Command::Heartbeat {
            term: *term,
            leader_id: *leader_id,
        },
        Command::Timeout => Command::Timeout,
        Command::Noop => Command::Noop,
        Command::ClientRequest { id, op } => {
            let op = match op {
                ClientOp::Mutate(data) => ClientOp::Mutate(clone_bytes(data)),
                ClientOp::Query(query) => ClientOp::Query(clone_bytes(query)),
            };
            Command::ClientRequest { id: *id, op }
        },
        Command::ClientResponse { id, result } => {
            let result = match result {
                ClientResult::State(bytes) => ClientResult::State(clone_bytes(bytes)),
            };
            Command::ClientResponse { id: *id, result }
        },
    }
}

impl Clone for Entry {
    fn clone(&self) -> (r: Self)
        ensures
            r@ == self@,
    {
        clone_entry(self)
    }
}

impl Clone for Command {
    fn clone(&self) -> (r: Self)
        ensures
            r@ == self@,
    {
        clone_command(self)
    }
}

/// The role a node plays in the cluster.
#[derive(Clone, Copy, Debug, PartialEq, Eq, Structural)]
pub enum RaftRole {
    Follower,
    Candidate,
    Leader,
}

/// Shared behavior that all roles of the state machine must implement.
pub trait Role: Sized {
    /// The mathematical value of the role state.
    spec fn model(&self) -> RoleModel;

    /// Set the term for the node, resetting the current election.
    fn term(&mut self, term: u64)
        ensures
            final(self).model() == on_term(old(self).model()),
    ;

    /// The role this state belongs to.
    fn role(&self) -> (r: RaftRole)
        ensures
            r == kind(self.model()),
    ;
}

/// The primary struct representing the state machine. Contains fields common all roles.
pub struct Raft<T: Role> {
    /// The identifier for this node.
    pub id: NodeId,
    /// Configuration for this instance.
    pub config: RaftConfig,
    /// The replicated log.
    pub log: Log,
    /// Volatile and persistent state for the state machine. Note that specific additional per-role
    /// state may be contained in that role.
    pub state: State,
    /// An instance containing role specific state and behavior.
    pub role: T,
    /// The clock reading of the last tick, in milliseconds.
    pub now: u64,
    /// The random sample of the last tick.
    pub seed: u64,
    /// The messages waiting to be sent, oldest first.
    pub outbox: Vec<RpcMessage>,
    /// The instructions waiting for the driver, oldest first.
    pub instructions: Vec<Instruction>,
}

/// A node together with what it has queued for its transport and its
/// driver.
pub ghost struct Snapshot {
    pub node: NodeModel,
    pub sent: Seq<MessageModel>,
    pub queued: Seq<InstructionModel>,
}

/// The snapshot after `o` happened to the node of `s`: what the node sends
/// and hands over is queued behind what was queued before.
pub open spec fn after(s: Snapshot, o: Outcome) -> Snapshot {
    Snapshot { node: o.node, sent: s.sent + o.messages, queued: s.queued + o.instructions }
}

/// Whether `r` is what `expected` asks for after `s`: the error, or a
/// well-formed handle on the snapshot that the outcome leads to.
pub open spec fn follows(s: Snapshot, expected: Result<Outcome, RaftError>, r: Result<
    RaftHandle,
    RaftError,
>) -> bool {
    match expected {
        Ok(o) => r matches Ok(h) && h.wf() && h.snapshot() == after(s, o),
        Err(e) => r matches Err(x) && x == e,
    }
}

// Base methods for general operations (+ debugging and testing).
impl<T: Role> Raft<T> {
    /// The mathematical value of the node.
    pub open spec fn node(&self) -> NodeModel {
        NodeModel {
            id: self.id,
            peers: self.config@.peers,
            heartbeat_interval: self.config.heartbeat_interval_ms,
            state: self.state,
            log: self.log@,
            role: self.role.model(),
            now: self.now,
            seed: self.seed,
        }
    }

    /// The node with its queues.
    pub open spec fn snapshot(&self) -> Snapshot {
        Snapshot {
            node: self.node(),
            sent: messages_model(self.outbox@),
            queued: instructions_model(self.instructions@),
        }
    }

    /// The invariants of the node hold.
    pub open spec fn wf(&self) -> bool {
        node_wf(self.node())
    }

    /// Checks the status of the election timer against the clock reading of
    /// the last tick.
    pub fn needs_election(&self) -> (due: bool)
        ensures
            due == self.state.election_due(self.now),
    {
        self.state.timer_expired(self.now)
    }

    /// Set the current term. A higher term is adopted, and with it the vote
    /// cast in the old term is forgotten and the role told; a term that is
    /// not higher changes nothing, for terms never go back.
    pub fn term(&mut self, term: u64)
        ensures
            final(self).snapshot() == (Snapshot {
                node: at_term(old(self).node(), term),
                ..old(self).snapshot()
            }),
            old(self).wf() ==> final(self).wf(),
    {
        if term > self.state.current_term {
            self.state.voted_for = None;
            self.state.current_term = term;
            self.role.term(term);
        }
    }

    /// The node as a follower that knows no leader; everything that does
    /// not belong to the role stays.
    pub fn into_follower(self) -> (r: Raft<Follower>)
        ensures
            r.snapshot() == (Snapshot { node: as_follower(self.node()), ..self.snapshot() }),
            self.wf() ==> r.wf(),
    {
        Raft {
            id: self.id,
            config: self.config,
            log: self.log,
            state: self.state,
            role: Follower { leader_id: None },
            now: self.now,
            seed: self.seed,
            outbox: self.outbox,
            instructions: self.instructions,
        }
    }

    /// The shared rule for a message of a higher term: the node adopts the
    /// term, forgets its vote and becomes a follower.
    pub fn yield_to(self, term: Term) -> (r: Raft<Follower>)
        requires
            term > self.state.current_term,
        ensures
            r.snapshot() == (Snapshot {
                node: as_follower(at_term(self.node(), term)),
                ..self.snapshot()
            }),
            self.wf() ==> r.wf(),
    {
        let mut raft = self;
        raft.term(term);
        raft.into_follower()
    }

    /// The higher term a command carries, if it carries one.
    pub fn outranked_by(&self, cmd: &Command) -> (term: Option<Term>)
        ensures
            term is Some == crate::node::outranks(self.node(), cmd@),
            term matches Some(t) ==> crate::node::command_term(cmd@) == Some(t),
    {
        let carried = match cmd {
            Command::VoteRequest { term, .. } => Some(*term),
            Command::VoteResponse { term, .. } => Some(*term),
            Command::AppendEntries { term, .. } => Some(*term),
            Command::AppendResponse { term, .. } => Some(*term),
            Command::Heartbeat { term, .. } => Some(*term),
            _ => None,
        };
        match carried {
            Some(t) => if t > self.state.current_term {
                Some(t)
            } else {
                None
            },
            None => None,
        }
    }

    /// Refuses an append or a heartbeat of `leader_id`.
    pub fn reject(&mut self, leader_id: NodeId)
        ensures
            final(self).snapshot() == after(
                old(self).snapshot(),
                crate::node::rejecting(old(self).node(), leader_id),
            ),
    {
        let ghost before = self.snapshot();
        let index = self.log.last_index();
        let term = self.state.current_term;
        let from = self.id;
        self.send(leader_id, Command::AppendResponse { term, from, index, success: false });
        assert(self.snapshot().sent =~= before.sent + crate::node::rejecting(
            old(self).node(),
            leader_id,
        ).messages);
        assert(self.snapshot().queued =~= before.queued + Seq::<InstructionModel>::empty());
    }

    /// Refuses `candidate_id` the vote.
    pub fn deny(&mut self, candidate_id: NodeId)
        ensures
            final(self).snapshot() == after(
                old(self).snapshot(),
                crate::node::denying(old(self).node(), candidate_id),
            ),
    {
        let ghost before = self.snapshot();
        let term = self.state.current_term;
        let from = self.id;
        self.send(candidate_id, Command::VoteResponse { term, from, granted: false });
        assert(self.snapshot().sent =~= before.sent + crate::node::denying(
            old(self).node(),
            candidate_id,
        ).messages);
        assert(self.snapshot().queued =~= before.queued + Seq::<InstructionModel>::empty());
    }

    /// Deals with a command that concerns no role in particular: a client's
    /// read goes to the driver, anything else is dropped.
    pub fn other(&mut self, cmd: Command)
        ensures
            final(self).snapshot() == after(
                old(self).snapshot(),
                crate::node::otherwise(old(self).node(), cmd@),
            ),
    {
        let ghost before = self.snapshot();
        match cmd {
            Command::ClientRequest { id, op: ClientOp::Query(query) } => {
                let ghost asked = InstructionModel::Query { id, query: query@ };
                self.instructions.push(Instruction::Query { id, query });
                assert(self.snapshot().queued =~= before.queued + seq![asked]);
            },
            _ => {
                assert(self.snapshot().queued =~= before.queued + Seq::<InstructionModel>::empty());
            },
        }
        assert(self.snapshot().sent =~= before.sent + Seq::<MessageModel>::empty());
    }

    /// Raises the commit index to `commit` and hands every entry that is
    /// committed but not yet handed over to the driver, in index order.
    pub fn commit(&mut self, commit: LogIndex)
        requires
            old(self).wf(),
            old(self).state.commit_index <= commit <= old(self).log@.len(),
        ensures
            final(self).wf(),
            final(self).snapshot() == after(
                old(self).snapshot(),
                crate::node::committing(old(self).node(), commit, Seq::empty()),
            ),
    {
        let ghost before = self.snapshot();
        let ghost raised = NodeModel {
            state: State { commit_index: commit, ..before.node.state },
            ..before.node
        };
        let first = self.state.last_applied;
        let mut index = first;
        while index < commit
            invariant
                first <= index <= commit <= self.log@.len(),
                first == raised.state.last_applied,
                raised.log == self.log@,
                raised.state.commit_index == commit,
                self.instructions@.len() == old(self).instructions@.len() + (index - first),
                forall|j: int|
                    0 <= j < old(self).instructions@.len() ==> self.instructions@[j]@ == old(
                        self,
                    ).instructions@[j]@,
                forall|k: int|
                    0 <= k < index - first ==> self.instructions@[old(self).instructions@.len()
                        + k]@ == newly_committed(raised)[k],
                self.id == old(self).id,
                self.config == old(self).config,
                self.log == old(self).log,
                self.state == old(self).state,
                self.role == old(self).role,
                self.now == old(self).now,
                self.seed == old(self).seed,
                self.outbox == old(self).outbox,
            decreases commit - index,
        {
            index += 1;
            match self.log.entry_at(index) {
                Some(entry) => {
                    self.instructions.push(Instruction::Apply { entry });
                },
                None => {
                    assert(false);
                },
            }
        }
        self.state.commit_index = commit;
        self.state.last_applied = commit;
        assert(self.snapshot().queued =~= before.queued + newly_committed(raised));
        assert(self.snapshot().sent =~= before.sent + Seq::<MessageModel>::empty());
    }

    /// Hands out the messages queued so far and empties the queue.
    pub fn take_messages(&mut self) -> (messages: Vec<RpcMessage>)
        ensures
            messages_model(messages@) == old(self).snapshot().sent,
            final(self).snapshot() == (Snapshot { sent: Seq::empty(), ..old(self).snapshot() }),
    {
        let mut messages: Vec<RpcMessage> = Vec::new();
        std::mem::swap(&mut messages, &mut self.outbox);
        assert(self.snapshot().sent =~= Seq::<MessageModel>::empty());
        messages
    }

    /// Hands out the instructions queued so far and empties the queue.
    pub fn take_instructions(&mut self) -> (instructions: Vec<Instruction>)
        ensures
            instructions_model(instructions@) == old(self).snapshot().queued,
            final(self).snapshot() == (Snapshot { queued: Seq::empty(), ..old(self).snapshot() }),
    {
        let mut instructions: Vec<Instruction> = Vec::new();
        std::mem::swap(&mut instructions, &mut self.instructions);
        assert(self.snapshot().queued =~= Seq::<InstructionModel>::empty());
        instructions
    }

    /// Queues `command` for member `to`.
    pub fn send(&mut self, to: NodeId, command: Command)
        ensures
            final(self).snapshot() == (Snapshot {
                sent: old(self).snapshot().sent.push(
                    crate::node::to_peer(old(self).node(), to, command@),
                ),
                ..old(self).snapshot()
            }),
    {
        let ghost before = self.snapshot().sent;
        self.outbox.push(
            RpcMessage { from: Address::Peer(self.id), to: Address::Peer(to), command },
        );
        assert(self.snapshot().sent =~= before.push(
            crate::node::to_peer(old(self).node(), to, command@),
        ));
    }
}

/// Since applying command to the state machine can potentially result in any state transition,
/// the result that we get back needs to be general to the possible return types -- easiest
/// way here is just to store the differently sized structs per state in an enum, which will be
/// sized to the largest variant.
pub enum RaftHandle {
    /// An instance of the state machine in the follower role.
    Follower(Raft<Follower>),
    /// An instance of the state machine in the candidate role.
    Candidate(Raft<Candidate>),
    /// An instance of the state machine in the leader role.
    Leader(Raft<Leader>),
}

impl RaftHandle {
    /// The node with its queues.
    pub open spec fn snapshot(&self) -> Snapshot {
        match *self {
            RaftHandle::Follower(raft) => raft.snapshot(),
            RaftHandle::Candidate(raft) => raft.snapshot(),
            RaftHandle::Leader(raft) => raft.snapshot(),
        }
    }

    /// The mathematical value of the node.
    pub open spec fn node(&self) -> NodeModel {
        self.snapshot().node
    }

    /// The invariants of the node hold.
    pub open spec fn wf(&self) -> bool {
        node_wf(self.node())
    }

    /// Obtain a new instance of raft initialized in the default follower
    /// state, with its election timer started at clock reading `now` and a
    /// timeout picked from the sample `seed`. An invalid configuration is
    /// refused.
    pub fn new(config: RaftConfig, now: u64, seed: u64) -> (r: Result<RaftHandle, RaftError>)
        ensures
            config_valid(config@) ==> (r matches Ok(h) && h.wf() && h.snapshot() == (Snapshot {
                node: fresh(config@, now, seed),
                sent: Seq::empty(),
                queued: Seq::empty(),
            })),
            !timing_valid(config@) ==> (r matches Err(e) && e == RaftError::Config(
                ConfigError::Timing,
            )),
            timing_valid(config@) && !peers_valid(config@) ==> (r matches Err(e) && e
                == RaftError::Config(ConfigError::PeerSet)),
    {
        match config.validate() {
            Err(e) => Err(RaftError::Config(e)),
            Ok(_) => {
                let timers = State {
                    current_term: 0,
                    voted_for: None,
                    commit_index: 0,
                    last_applied: 0,
                    election_time: Some(now),
                    election_timeout: None,
                    min_election_timeout: config.min_election_timeout_ms,
                    max_election_timeout: config.max_election_timeout_ms,
                };
                let state = State { election_timeout: Some(timers.pick_timeout(seed)), ..timers };
                let raft = Raft {
                    id: config.node_id,
                    config,
                    log: Log::new(),
                    state,
                    role: Follower { leader_id: None },
                    now,
                    seed,
                    outbox: Vec::new(),
                    instructions: Vec::new(),
                };
                let handle = RaftHandle::Follower(raft);
                assert(handle.snapshot().sent =~= Seq::<MessageModel>::empty());
                assert(handle.snapshot().queued =~= Seq::<InstructionModel>::empty());
                Ok(handle)
            },
        }
    }

    /// The role the node plays.
    pub fn role(&self) -> (r: RaftRole)
        ensures
            r == kind(self.node().role),
    {
        match self {
            RaftHandle::Follower(_) => RaftRole::Follower,
            RaftHandle::Candidate(_) => RaftRole::Candidate,
            RaftHandle::Leader(_) => RaftRole::Leader,
        }
    }

    /// The id of the node.
    pub fn id(&self) -> (id: NodeId)
        ensures
            id == self.node().id,
    {
        match self {
            RaftHandle::Follower(raft) => raft.id,
            RaftHandle::Candidate(raft) => raft.id,
            RaftHandle::Leader(raft) => raft.id,
        }
    }

    /// The state common to all roles.
    pub fn state(&self) -> (state: State)
        ensures
            state == self.node().state,
    {
        match self {
            RaftHandle::Follower(raft) => raft.state,
            RaftHandle::Candidate(raft) => raft.state,
            RaftHandle::Leader(raft) => raft.state,
        }
    }

    /// The log of the node.
    pub fn log(&self) -> (log: &Log)
        ensures
            log@ == self.node().log,
    {
        match self {
            RaftHandle::Follower(raft) => &raft.log,
            RaftHandle::Candidate(raft) => &raft.log,
            RaftHandle::Leader(raft) => &raft.log,
        }
    }

    /// The leader the node knows of: itself if it leads, the one it last
    /// heard from if it follows.
    pub fn leader_id(&self) -> (leader: Option<NodeId>)
        ensures
            leader == known_leader(self.node()),
    {
        match self {
            RaftHandle::Follower(raft) => raft.role.leader_id,
            RaftHandle::Candidate(_) => None,
            RaftHandle::Leader(raft) => Some(raft.id),
        }
    }

    /// Hands out the messages queued so far and empties the queue.
    pub fn take_messages(self) -> (r: (RaftHandle, Vec<RpcMessage>))
        ensures
            messages_model(r.1@) == self.snapshot().sent,
            r.0.snapshot() == (Snapshot { sent: Seq::empty(), ..self.snapshot() }),
    {
        match self {
            RaftHandle::Follower(raft) => {
                let mut raft = raft;
                let messages = raft.take_messages();
                (RaftHandle::Follower(raft), messages)
            },
            RaftHandle::Candidate(raft) => {
                let mut raft = raft;
                let messages = raft.take_messages();
                (RaftHandle::Candidate(raft), messages)
            },
            RaftHandle::Leader(raft) => {
                let mut raft = raft;
                let messages = raft.take_messages();
                (RaftHandle::Leader(raft), messages)
            },
        }
    }

    /// Hands out the instructions queued so far and empties the queue.
    pub fn take_instructions(self) -> (r: (RaftHandle, Vec<Instruction>))
        ensures
            instructions_model(r.1@) == self.snapshot().queued,
            r.0.snapshot() == (Snapshot { queued: Seq::empty(), ..self.snapshot() }),
    {
        match self {
            RaftHandle::Follower(raft) => {
                let mut raft = raft;
                let instructions = raft.take_instructions();
                (RaftHandle::Follower(raft), instructions)
            },
            RaftHandle::Candidate(raft) => {
                let mut raft = raft;
                let instructions = raft.take_instructions();
                (RaftHandle::Candidate(raft), instructions)
            },
            RaftHandle::Leader(raft) => {
                let mut raft = raft;
                let instructions = raft.take_instructions();
                (RaftHandle::Leader(raft), instructions)
            },
        }
    }
}

/// The leader a node knows of.
pub open spec fn known_leader(n: NodeModel) -> Option<NodeId> {
    match n.role {
        RoleModel::Follower { leader_id } => leader_id,
        RoleModel::Candidate { .. } => None,
        RoleModel::Leader { .. } => Some(n.id),
    }
}

/// The node a configuration starts: a follower of term 0 with an empty
/// log that knows no leader, its election timer started at `now` with a
/// timeout picked from `seed`.
pub open spec fn fresh(c: ConfigModel, now: u64, seed: u64) -> NodeModel {
    let timers = State {
        current_term: 0,
        voted_for: None,
        commit_index: 0,
        last_applied: 0,
        election_time: Some(now),
        election_timeout: None,
        min_election_timeout: c.min_election_timeout_ms,
        max_election_timeout: c.max_election_timeout_ms,
    };
    NodeModel {
        id: c.node_id,
        peers: c.peers,
        heartbeat_interval: c.heartbeat_interval_ms,
        state: State { election_timeout: Some(timers.picked_timeout(seed)), ..timers },
        log: Seq::empty(),
        role: RoleModel::Follower { leader_id: None },
        now,
        seed,
    }
}

impl Apply for RaftHandle {
    open spec fn before(&self) -> Snapshot {
        self.snapshot()
    }

    fn apply(self, cmd: Command) -> (r: Result<RaftHandle, RaftError>) {
        match self {
            RaftHandle::Follower(raft) => raft.apply(cmd),
            RaftHandle::Candidate(raft) => raft.apply(cmd),
            RaftHandle::Leader(raft) => raft.apply(cmd),
        }
    }
}

/// Applying a command is the basic way the state machine is moved forward. Each role implements
/// trait to handle how it responds (or does not respond) to particular commands.
pub trait Apply: Sized {
    /// The node with its queues.
    spec fn before(&self) -> Snapshot;

    /// Apply a command to the raft state machine, which may result in a new raft state. Errors
    /// occur for only truly exceptional conditions, and are provided to allow the wrapping
    /// server containing this state machine to shut down gracefully.
    fn apply(self, cmd: Command) -> (r: Result<RaftHandle, RaftError>)
        requires
            node_wf(self.before().node),
        ensures
            follows(self.before(), step(self.before().node, cmd@), r),
    ;
}

} // verus!
