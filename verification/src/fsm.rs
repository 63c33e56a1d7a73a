use vstd::prelude::*;
use crate::raft::{
    ClientResult, ClientResultModel, Command, CommandModel, Entry, EntryModel,
    EntryType, LogIndex, Payload, RequestId,
};
use crate::rpc::{messages_model, Address, MessageModel, RpcMessage};

verus! {

/// The failure of a state machine to take an input.
#[derive(Debug, PartialEq, Eq)]
pub struct FsmError {
    /// What went wrong, in the state machine's own words.
    pub reason: String,
}

/// The deterministic state machine that committed entries are applied to.
pub trait Fsm: Send + Sync {
    /// Moves the state machine forward by one input and returns its answer.
    fn transition(&mut self, input: Vec<u8>) -> Result<Vec<u8>, FsmError>;

    /// Reads from the state machine without changing it.
    fn query(&self, input: Vec<u8>) -> Vec<u8>;
}

/// What the driver is asked to do.
#[derive(Debug, PartialEq, Eq)]
pub enum Instruction {
    /// Apply a committed entry.
    Apply { entry: Entry },
    /// Answer a read of the state machine.
    Query { id: RequestId, query: Vec<u8> },
}

/// Mathematical value of an [`Instruction`].
pub ghost enum InstructionModel {
    Apply { entry: EntryModel },
    Query { id: RequestId, query: Seq<u8> },
}

impl View for Instruction {
    type V = InstructionModel;

    open spec fn view(&self) -> InstructionModel {
        match *self {
            Instruction::Apply { entry } => InstructionModel::Apply { entry: entry@ },
            Instruction::Query { id, query } => InstructionModel::Query { id, query: query@ },
        }
    }
}

/// The values of a run of instructions, in order.
pub open spec fn instructions_model(is: Seq<Instruction>) -> Seq<InstructionModel> {
    Seq::new(is.len(), |i: int| is[i]@)
}

/// Why the driver stopped.
#[derive(Debug, PartialEq, Eq)]
pub enum DriverError {
    /// An entry was handed over whose index is not the one after the last
    /// applied index.
    OutOfOrder { expected: LogIndex, found: LogIndex },
    /// The state machine failed on an input.
    Fsm(FsmError),
}

/// Mathematical value of a [`Driver`], apart from the state machine it owns.
pub ghost struct DriverModel {
    /// The highest index applied so far.
    pub applied_idx: LogIndex,
    /// Every input handed to `transition` so far, in order.
    pub inputs: Seq<Seq<u8>>,
    /// Every query handed to `query` so far, in order.
    pub queries: Seq<Seq<u8>>,
    /// The answers waiting to be sent.
    pub outbox: Seq<MessageModel>,
}

/// The answer to query `id` that carries `state`.
pub open spec fn state_response(id: RequestId, state: Seq<u8>) -> MessageModel {
    MessageModel {
        from: Address::Local,
        to: Address::Local,
        command: CommandModel::ClientResponse { id, result: ClientResultModel::State(state) },
    }
}

/// The index to apply after `applied_idx`; at the largest index there is
/// none, and the largest index stands in.
pub open spec fn next_index(applied_idx: LogIndex) -> LogIndex {
    if applied_idx == u64::MAX {
        u64::MAX
    } else {
        (applied_idx + 1) as u64
    }
}

/// Whether `entry` is the next one to apply after `applied_idx`.
pub open spec fn in_order(applied_idx: LogIndex, entry: EntryModel) -> bool {
    applied_idx < u64::MAX && entry.index == applied_idx + 1
}

/// An entry that is not the next one is refused and nothing changes.
pub open spec fn refused_out_of_order(
    before: DriverModel,
    entry: EntryModel,
    after: DriverModel,
    r: Result<(), DriverError>,
) -> bool {
    &&& after == before
    &&& r == Err::<(), DriverError>(
        DriverError::OutOfOrder { expected: next_index(before.applied_idx), found: entry.index },
    )
}

/// The data of the entry at `index` was handed to the state machine: the
/// entry counts as applied if and only if the state machine took it.
pub open spec fn fed(
    before: DriverModel,
    index: LogIndex,
    data: Seq<u8>,
    after: DriverModel,
    r: Result<(), DriverError>,
) -> bool {
    &&& after.inputs == before.inputs.push(data)
    &&& after.queries == before.queries
    &&& after.outbox == before.outbox
    &&& r is Ok ==> after.applied_idx == index
    &&& r is Err ==> r->Err_0 is Fsm && after.applied_idx == before.applied_idx
}

/// What handing over `entry` for application comes to.
pub open spec fn applied(
    before: DriverModel,
    entry: EntryModel,
    after: DriverModel,
    r: Result<(), DriverError>,
) -> bool {
    if !in_order(before.applied_idx, entry) {
        refused_out_of_order(before, entry, after, r)
    } else {
        match entry.payload {
            Payload::Data(data) => fed(before, entry.index, data, after, r),
            _ => r is Ok && after == (DriverModel { applied_idx: entry.index, ..before }),
        }
    }
}

/// The driver after `query` was handed to the state machine, which
/// answered `state`.
pub open spec fn answered(
    before: DriverModel,
    id: RequestId,
    query: Seq<u8>,
    state: Seq<u8>,
) -> DriverModel {
    DriverModel {
        queries: before.queries.push(query),
        outbox: before.outbox.push(state_response(id, state)),
        ..before
    }
}

/// What handing over `query` comes to: it reached the state machine, and
/// whatever the state machine answered is queued for the client.
pub open spec fn queried(
    before: DriverModel,
    id: RequestId,
    query: Seq<u8>,
    after: DriverModel,
) -> bool {
    exists|state: Seq<u8>| after == #[trigger] answered(before, id, query, state)
}

/// Consumes committed entries and queries and applies them to the state
/// machine it owns.
pub struct Driver<T: Fsm> {
    applied_idx: LogIndex,
    outbox: Vec<RpcMessage>,
    inputs: Ghost<Seq<Seq<u8>>>,
    queries: Ghost<Seq<Seq<u8>>>,
    fsm: T,
}

impl<T: Fsm> View for Driver<T> {
    type V = DriverModel;

    closed spec fn view(&self) -> DriverModel {
        DriverModel {
            applied_idx: self.applied_idx,
            inputs: self.inputs@,
            queries: self.queries@,
            outbox: messages_model(self.outbox@),
        }
    }
}

impl<T: Fsm> Driver<T> {
    /// The state machine the driver owns, as it stands.
    pub closed spec fn machine(&self) -> T {
        self.fsm
    }

    /// A driver that owns `fsm` and has applied nothing yet.
    pub fn new(fsm: T) -> (d: Self)
        ensures
            d@ == (DriverModel {
                applied_idx: 0,
                inputs: Seq::empty(),
                queries: Seq::empty(),
                outbox: Seq::empty(),
            }),
            d.machine() == fsm,
    {
        let d = Driver {
            applied_idx: 0,
            outbox: Vec::new(),
            inputs: Ghost(Seq::empty()),
            queries: Ghost(Seq::empty()),
            fsm,
        };
        assert(d@.outbox =~= Seq::<MessageModel>::empty());
        d
    }

    /// The highest index applied so far.
    pub fn applied_index(&self) -> (index: LogIndex)
        ensures
            index == self@.applied_idx,
    {
        self.applied_idx
    }

    /// Takes down how the entry at `index` went through: the index counts
    /// as applied unless the state machine failed on it, and then its error
    /// is passed on.
    pub fn settle(&mut self, index: LogIndex, outcome: Option<Result<Vec<u8>, FsmError>>) -> (r:
        Result<(), DriverError>)
        ensures
            outcome matches Some(Err(e)) ==> r == Err::<(), DriverError>(DriverError::Fsm(e))
                && final(self)@ == old(self)@,
            !(outcome matches Some(Err(_))) ==> r is Ok && final(self)@ == (DriverModel {
                applied_idx: index,
                ..old(self)@
            }),
            final(self).machine() == old(self).machine(),
    {
        match outcome {
            Some(Err(e)) => Err(DriverError::Fsm(e)),
            _ => {
                self.applied_idx = index;
                Ok(())
            },
        }
    }

    /// Carries out one instruction.
    ///
    /// An entry must be the one after the last applied index, else it is
    /// refused and nothing changes. The data of an entry is handed to the
    /// state machine; an entry of another kind is only counted. A query is
    /// handed to the state machine and its answer is queued as a response
    /// to the client. The state machine is as it was unless an input was
    /// handed to it.
    pub fn exec(&mut self, instruction: Instruction) -> (r: Result<(), DriverError>)
        ensures
            final(self)@.inputs == old(self)@.inputs ==> final(self).machine() == old(
                self,
            ).machine(),
            instruction@ matches InstructionModel::Apply { entry } ==> applied(
                old(self)@,
                entry,
                final(self)@,
                r,
            ),
            instruction@ matches InstructionModel::Query { id, query } ==> r is Ok && queried(
                old(self)@,
                id,
                query,
                final(self)@,
            ),
    {
        let ghost asked = instruction@;
        match instruction {
            Instruction::Apply { entry } => {
                assert(asked == InstructionModel::Apply { entry: entry@ });
                if self.applied_idx == u64::MAX || entry.index != self.applied_idx + 1 {
                    let expected = if self.applied_idx == u64::MAX {
                        u64::MAX
                    } else {
                        self.applied_idx + 1
                    };
                    return Err(DriverError::OutOfOrder { expected, found: entry.index });
                }
                let index = entry.index;
                let ghost before = self@;
                match entry.entry_type {
                    EntryType::Entry { data } => {
                        assert(entry@.payload == Payload::Data(data@));
                        proof {
                            self.inputs@ = self.inputs@.push(data@);
                        }
                        assert(self@ == (DriverModel { inputs: before.inputs.push(data@), ..before }));
                        let outcome = self.fsm.transition(data);
                        assert(self@ == (DriverModel { inputs: before.inputs.push(data@), ..before }));
                        let r = self.settle(index, Some(outcome));
                        assert(self@.inputs.len() == old(self)@.inputs.len() + 1);
                        r
                    },
                    _ => {
                        assert(!(entry@.payload is Data));
                        self.settle(index, None)
                    },
                }
            },
            Instruction::Query { id, query } => {
                assert(asked == InstructionModel::Query { id, query: query@ });
                let ghost asked = query@;
                proof {
                    self.queries@ = self.queries@.push(query@);
                }
                let ghost before = self@;
                let state = self.fsm.query(query);
                let ghost answer = state@;
                self.outbox.push(
                    RpcMessage {
                        from: Address::Local,
                        to: Address::Local,
                        command: Command::ClientResponse { id, result: ClientResult::State(state) },
                    },
                );
                assert(self@.outbox =~= before.outbox.push(state_response(id, answer)));
                assert(self@ == answered(old(self)@, id, asked, answer));
                assert(queried(old(self)@, id, asked, self@));
                Ok(())
            },
        }
    }

    /// Hands out the answers queued so far and empties the queue.
    pub fn take_messages(&mut self) -> (messages: Vec<RpcMessage>)
        ensures
            messages_model(messages@) == old(self)@.outbox,
            final(self)@ == (DriverModel { outbox: Seq::empty(), ..old(self)@ }),
            final(self).machine() == old(self).machine(),
    {
        let mut messages: Vec<RpcMessage> = Vec::new();
        std::mem::swap(&mut messages, &mut self.outbox);
        assert(self@.outbox =~= Seq::<MessageModel>::empty());
        messages
    }

    /// Ends the driver and yields the state machine back, as the inputs
    /// handed to it have left it.
    pub fn into_fsm(self) -> (fsm: T)
        ensures
            fsm == self.machine(),
    {
        self.fsm
    }
}

/// How many of the instructions `is` hand over an entry.
pub open spec fn entries_in(is: Seq<InstructionModel>) -> nat
    decreases is.len(),
{
    if is.len() == 0 {
        0
    } else {
        entries_in(is.drop_last()) + match is.last() {
            InstructionModel::Apply { .. } => 1nat,
            InstructionModel::Query { .. } => 0nat,
        }
    }
}

/// The data that the instructions `is` hand over for the state machine,
/// in order.
pub open spec fn data_in(is: Seq<InstructionModel>) -> Seq<Seq<u8>>
    decreases is.len(),
{
    if is.len() == 0 {
        Seq::empty()
    } else {
        data_in(is.drop_last()) + match is.last() {
            InstructionModel::Apply { entry: EntryModel { payload: Payload::Data(data), .. } } => {
                seq![data]
            },
            _ => Seq::empty(),
        }
    }
}

/// The queries among the instructions `is`, in order.
pub open spec fn queries_in(is: Seq<InstructionModel>) -> Seq<Seq<u8>>
    decreases is.len(),
{
    if is.len() == 0 {
        Seq::empty()
    } else {
        queries_in(is.drop_last()) + match is.last() {
            InstructionModel::Query { query, .. } => seq![query],
            InstructionModel::Apply { .. } => Seq::empty(),
        }
    }
}

/// Whether the entries that the instructions `is` hand over carry the
/// indices that follow `applied_idx`, one by one.
pub open spec fn in_sequence(applied_idx: LogIndex, is: Seq<InstructionModel>) -> bool
    decreases is.len(),
{
    if is.len() == 0 {
        true
    } else {
        in_sequence(applied_idx, is.drop_last()) && (is.last() matches InstructionModel::Apply {
            entry,
        } ==> entry.index == applied_idx + entries_in(is.drop_last()) + 1 && entry.index
            <= u64::MAX)
    }
}

/// What a driver has come to after it carried out all of the instructions
/// `is`: every entry counted, every datum handed to the state machine and
/// every query asked, in the order of the instructions, and an answer queued
/// for every query.
pub open spec fn carried_out(
    before: DriverModel,
    is: Seq<InstructionModel>,
    after: DriverModel,
) -> bool {
    &&& in_sequence(before.applied_idx, is)
    &&& after.applied_idx == before.applied_idx + entries_in(is)
    &&& after.inputs == before.inputs + data_in(is)
    &&& after.queries == before.queries + queries_in(is)
    &&& after.outbox.len() == before.outbox.len() + queries_in(is).len()
}

/// What a driver has come to when it stopped at instruction `k` of `is`:
/// the instructions before it are carried out, and the entry of instruction
/// `k` was refused as out of order, or its data was handed to the state
/// machine, which failed on it.
pub open spec fn stopped_at(
    before: DriverModel,
    is: Seq<InstructionModel>,
    k: int,
    after: DriverModel,
    r: Result<(), DriverError>,
) -> bool {
    &&& 0 <= k < is.len()
    &&& is[k] matches InstructionModel::Apply { entry }
    &&& exists|mid: DriverModel| #[trigger]
        carried_out(before, is.take(k), mid) && applied(mid, entry, after, r)
    &&& r is Err
}

/// What a driver has come to when it stopped at one of the instructions
/// `is`.
pub open spec fn stopped(
    before: DriverModel,
    is: Seq<InstructionModel>,
    after: DriverModel,
    r: Result<(), DriverError>,
) -> bool {
    exists|k: int| #[trigger] stopped_at(before, is, k, after, r)
}

impl<T: Fsm> Driver<T> {
    /// Carries out `instructions` one by one, in order, and stops at the
    /// first that fails. The state machine is as it was unless an input was
    /// handed to it.
    pub fn run(&mut self, instructions: Vec<Instruction>) -> (r: Result<(), DriverError>)
        ensures
            final(self)@.inputs == old(self)@.inputs ==> final(self).machine() == old(
                self,
            ).machine(),
            r is Ok ==> carried_out(old(self)@, instructions_model(instructions@), final(self)@),
            r is Err ==> stopped(old(self)@, instructions_model(instructions@), final(self)@, r),
    {
        let ghost whole = instructions_model(instructions@);
        let ghost before = self@;
        let mut rest = instructions;
        let total = rest.len();
        assert(whole.len() == total);
        let mut done: usize = 0;
        assert(whole.take(0) =~= Seq::<InstructionModel>::empty());
        assert(self@.inputs =~= before.inputs + data_in(whole.take(0)));
        assert(self@.queries =~= before.queries + queries_in(whole.take(0)));
        while rest.len() > 0
            invariant
                done + rest.len() == whole.len(),
                whole.len() <= usize::MAX,
                before == old(self)@,
                whole == instructions_model(instructions@),
                instructions_model(rest@) == whole.skip(done as int),
                carried_out(before, whole.take(done as int), self@),
                self@.inputs == before.inputs ==> self.machine() == old(self).machine(),
            decreases rest.len(),
        {
            let ghost mid = self@;
            let ghost head = whole.take(done as int);
            let ghost next = whole.take(done as int + 1);
            let ghost models = instructions_model(rest@);
            let ghost first = models[0];
            assert(first == whole[done as int]);
            let ghost tail = rest@.skip(1);
            let instruction = rest.remove(0);
            assert(instruction@ == first);
            assert(rest@ =~= tail);
            assert forall|j: int| 0 <= j < rest@.len() implies instructions_model(rest@)[j]
                == whole[done + 1 + j] by {
                assert(instructions_model(rest@)[j] == models[j + 1]);
                assert(models[j + 1] == whole.skip(done as int)[j + 1]);
            }
            assert(instructions_model(rest@) =~= whole.skip(done as int + 1));
            assert(next.drop_last() =~= head);
            assert(next.last() == whole[done as int]);
            let r = self.exec(instruction);
            proof {
                assert(mid.inputs.len() == before.inputs.len() + data_in(head).len());
                if self@.inputs == before.inputs {
                    assert(mid.inputs.len() <= self@.inputs.len()) by {
                        match whole[done as int] {
                            InstructionModel::Apply { entry } => {
                                assert(applied(mid, entry, self@, r));
                            },
                            InstructionModel::Query { id, query } => {
                                assert(queried(mid, id, query, self@));
                            },
                        }
                    }
                    assert(mid.inputs =~= before.inputs);
                    assert(self@.inputs == mid.inputs);
                }
            }
            match r {
                Ok(_) => {
                    proof {
                        match whole[done as int] {
                            InstructionModel::Apply { entry } => {
                                assert(applied(mid, entry, self@, r));
                                assert(self@.inputs =~= before.inputs + data_in(next));
                                assert(self@.queries =~= before.queries + queries_in(next));
                            },
                            InstructionModel::Query { id, query } => {
                                assert(queried(mid, id, query, self@));
                                let state = choose|state: Seq<u8>|
                                    self@ == #[trigger] answered(mid, id, query, state);
                                assert(self@.inputs =~= before.inputs + data_in(next));
                                assert(self@.queries =~= before.queries + queries_in(next));
                            },
                        }
                    }
                },
                Err(e) => {
                    proof {
                        assert(whole[done as int] is Apply);
                        let entry = whole[done as int]->Apply_entry;
                        assert(carried_out(before, whole.take(done as int), mid) && applied(
                            mid,
                            entry,
                            self@,
                            r,
                        ));
                        assert(stopped_at(before, whole, done as int, self@, r));
                        assert(stopped(before, whole, self@, r));
                    }
                    return Err(e);
                },
            }
            done += 1;
            assert(instructions_model(rest@) =~= whole.skip(done as int));
        }
        assert(whole.take(done as int) =~= whole);
        Ok(())
    }
}

} // verus!
