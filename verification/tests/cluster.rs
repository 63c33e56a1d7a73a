use josefine_raft::config::RaftConfig;
use josefine_raft::fsm::{Driver, Fsm, FsmError, Instruction};
use josefine_raft::raft::{
    Apply, ClientOp, Command, EntryType, Node, NodeId, RaftHandle, RaftRole, SocketAddress,
};
use josefine_raft::rpc::{Address, RpcMessage};
use std::collections::VecDeque;

/// A state machine that remembers every input in order.
struct Recorder {
    seen: Vec<Vec<u8>>,
}

impl Fsm for Recorder {
    fn transition(&mut self, input: Vec<u8>) -> Result<Vec<u8>, FsmError> {
        self.seen.push(input);
        Ok(Vec::new())
    }

    fn query(&self, _input: Vec<u8>) -> Vec<u8> {
        vec![self.seen.len() as u8]
    }
}

/// A cluster in one process: nodes 1..=n, a queue of messages in flight
/// and a driver per node.
struct Sim {
    nodes: Vec<Option<RaftHandle>>,
    drivers: Vec<Option<Driver<Recorder>>>,
    queue: VecDeque<RpcMessage>,
    cut: Vec<bool>,
}

const MIN: u64 = 150;
const HEARTBEAT: u64 = 50;

fn config(id: NodeId, n: u32) -> RaftConfig {
    let mut peers = Vec::new();
    for other in 1..=n {
        if other != id {
            peers.push(Node { id: other, addr: SocketAddress { ip: 0x7f00_0001, port: 6000 + other as u16 } });
        }
    }
    RaftConfig {
        node_id: id,
        peers,
        min_election_timeout_ms: MIN,
        max_election_timeout_ms: 300,
        heartbeat_interval_ms: HEARTBEAT,
    }
}

impl Sim {
    /// Node `i` is started with timeout `150 + 50 * (i - 1)`.
    fn new(n: u32) -> Sim {
        let mut nodes = Vec::new();
        let mut drivers = Vec::new();
        let mut cut = Vec::new();
        for id in 1..=n {
            let seed = 50 * (id as u64 - 1);
            nodes.push(Some(RaftHandle::new(config(id, n), 0, seed).unwrap()));
            drivers.push(Some(Driver::new(Recorder { seen: Vec::new() })));
            cut.push(false);
        }
        Sim { nodes, drivers, queue: VecDeque::new(), cut }
    }

    fn node(&self, id: NodeId) -> &RaftHandle {
        self.nodes[id as usize - 1].as_ref().unwrap()
    }

    fn apply(&mut self, id: NodeId, cmd: Command) {
        let slot = id as usize - 1;
        let handle = self.nodes[slot].take().unwrap();
        let handle = handle.apply(cmd).unwrap();
        let (handle, messages) = handle.take_messages();
        let (handle, instructions) = handle.take_instructions();
        self.nodes[slot] = Some(handle);
        for m in messages {
            self.queue.push_back(m);
        }
        let driver = self.drivers[slot].as_mut().unwrap();
        for i in instructions {
            driver.exec(i).unwrap();
        }
    }

    fn tick(&mut self, id: NodeId, now: u64) {
        self.apply(id, Command::Tick { now, seed: 50 * (id as u64 - 1) });
    }

    /// Delivers messages until none is in flight. A message from or to a
    /// node that is cut off is lost.
    fn settle(&mut self) {
        while let Some(m) = self.queue.pop_front() {
            let from = match m.from {
                Address::Peer(id) => id,
                _ => panic!("a node sent a message that does not name it"),
            };
            let to = match m.to {
                Address::Peer(id) => id,
                _ => panic!("a node sent a message to nobody in particular"),
            };
            if self.cut[from as usize - 1] || self.cut[to as usize - 1] {
                continue;
            }
            self.apply(to, m.command);
        }
    }

    fn seen(&self, id: NodeId) -> Vec<Vec<u8>> {
        let driver = self.drivers[id as usize - 1].as_ref().unwrap();
        assert_eq!(driver.applied_index(), self.node(id).state().last_applied);
        let mut out = Vec::new();
        let log = self.node(id).log();
        for index in 1..=driver.applied_index() {
            if let EntryType::Entry { data } = log.entry_at(index).unwrap().entry_type {
                out.push(data);
            }
        }
        out
    }

    fn terms(&self, id: NodeId) -> Vec<(u64, u64)> {
        let log = self.node(id).log();
        (1..=log.last_index()).map(|i| (i, log.term_at(i).unwrap())).collect()
    }

    /// Node 1 times out first, wins term 1 and replicates its no-op.
    fn bootstrap(&mut self) {
        self.tick(2, MIN);
        self.tick(3, MIN);
        self.tick(1, MIN);
        self.settle();
        self.tick(1, MIN);
        self.settle();
        self.tick(2, MIN + HEARTBEAT);
        self.tick(3, MIN + HEARTBEAT);
        self.tick(1, MIN + HEARTBEAT);
        self.settle();
    }

    fn write(&mut self, id: NodeId, data: &[u8]) {
        self.apply(id, Command::ClientRequest { id: 0, op: ClientOp::Mutate(data.to_vec()) });
    }
}

#[test]
fn three_node_bootstrap() {
    let mut sim = Sim::new(3);
    for id in 1..=3 {
        assert_eq!(sim.node(id).role(), RaftRole::Follower);
        assert_eq!(sim.node(id).leader_id(), None);
        assert_eq!(sim.node(id).state().current_term, 0);
    }
    // Too early for anybody.
    sim.tick(1, MIN - 1);
    sim.tick(2, MIN - 1);
    assert_eq!(sim.node(1).role(), RaftRole::Follower);
    assert!(sim.queue.is_empty());
    // Node 1 fires first.
    sim.tick(1, MIN);
    assert_eq!(sim.node(1).role(), RaftRole::Candidate);
    assert_eq!(sim.node(1).state().current_term, 1);
    assert_eq!(sim.node(1).state().voted_for, Some(1));
    assert_eq!(sim.queue.len(), 2);
    assert_eq!(
        sim.queue[0],
        RpcMessage {
            from: Address::Peer(1),
            to: Address::Peer(2),
            command: Command::VoteRequest { term: 1, candidate_id: 1, last_term: 0, last_index: 0 },
        }
    );
    sim.settle();
    assert_eq!(sim.node(1).role(), RaftRole::Leader);
    assert_eq!(sim.node(1).state().current_term, 1);
    assert_eq!(sim.node(1).leader_id(), Some(1));
    for id in 2..=3 {
        assert_eq!(sim.node(id).role(), RaftRole::Follower);
        assert_eq!(sim.node(id).leader_id(), Some(1));
        assert_eq!(sim.node(id).state().current_term, 1);
        assert_eq!(sim.node(id).state().voted_for, Some(1));
    }
    // The leader's no-op sits at index 1 and is not committed yet.
    assert_eq!(sim.terms(1), vec![(1, 1)]);
    assert_eq!(sim.node(1).state().commit_index, 0);
    // One heartbeat round replicates and commits it on the leader ...
    sim.tick(1, MIN);
    sim.settle();
    assert_eq!(sim.node(1).state().commit_index, 1);
    // ... and the next tells the followers.
    sim.tick(1, MIN + HEARTBEAT);
    sim.settle();
    for id in 1..=3 {
        assert_eq!(sim.terms(id), vec![(1, 1)]);
        assert_eq!(sim.node(id).state().commit_index, 1);
        assert_eq!(sim.node(id).state().last_applied, 1);
    }
}

#[test]
fn leader_crash() {
    let mut sim = Sim::new(3);
    sim.bootstrap();
    let before = sim.terms(1);
    // Node 1 stops; node 2's timer (200 ms) runs out first.
    sim.cut[0] = true;
    let last_heard = MIN + HEARTBEAT;
    sim.tick(2, last_heard + 199);
    assert_eq!(sim.node(2).role(), RaftRole::Follower);
    sim.tick(2, last_heard + 200);
    assert_eq!(sim.node(2).role(), RaftRole::Candidate);
    sim.settle();
    assert_eq!(sim.node(2).role(), RaftRole::Leader);
    assert_eq!(sim.node(2).state().current_term, 2);
    assert_eq!(sim.node(3).role(), RaftRole::Follower);
    assert_eq!(sim.node(3).state().current_term, 2);
    assert_eq!(sim.node(3).leader_id(), Some(2));
    assert_eq!(sim.terms(1), before);
    assert_eq!(sim.node(1).role(), RaftRole::Leader);
    assert_eq!(sim.node(1).state().current_term, 1);
}

#[test]
fn log_catch_up() {
    let mut sim = Sim::new(3);
    sim.cut[2] = true;
    sim.tick(1, MIN);
    sim.settle();
    assert_eq!(sim.node(1).role(), RaftRole::Leader);
    for k in 2..=10u8 {
        sim.write(1, &[k]);
    }
    sim.tick(1, MIN);
    sim.settle();
    sim.tick(1, MIN + HEARTBEAT);
    sim.settle();
    assert_eq!(sim.node(1).state().commit_index, 10);
    assert_eq!(sim.node(2).state().commit_index, 10);
    assert_eq!(sim.node(3).log().last_index(), 0);
    // The partition heals.
    sim.cut[2] = false;
    let mut now = MIN + HEARTBEAT;
    for _ in 0..12 {
        now += HEARTBEAT;
        sim.tick(1, now);
        sim.settle();
    }
    let expected: Vec<(u64, u64)> = (1..=10).map(|i| (i, 1)).collect();
    assert_eq!(sim.terms(3), expected);
    assert_eq!(sim.terms(1), expected);
    assert_eq!(sim.node(3).state().commit_index, 10);
    assert_eq!(sim.node(3).state().current_term, 1);
    for index in 1..=10 {
        assert_eq!(sim.node(3).log().entry_at(index), sim.node(1).log().entry_at(index));
    }
    assert_eq!(sim.seen(3), sim.seen(1));
    assert_eq!(sim.seen(3).len(), 9);
}

#[test]
fn split_vote() {
    let mut sim = Sim::new(3);
    sim.bootstrap();
    sim.cut[0] = true;
    let last_heard = MIN + HEARTBEAT;
    // Both fire before either hears of the other.
    sim.tick(2, last_heard + 250);
    sim.tick(3, last_heard + 250);
    assert_eq!(sim.node(2).role(), RaftRole::Candidate);
    assert_eq!(sim.node(3).role(), RaftRole::Candidate);
    assert_eq!(sim.node(2).state().current_term, 2);
    assert_eq!(sim.node(3).state().current_term, 2);
    sim.settle();
    // Each has its own vote only.
    assert_eq!(sim.node(2).role(), RaftRole::Candidate);
    assert_eq!(sim.node(3).role(), RaftRole::Candidate);
    assert_eq!(sim.node(2).state().voted_for, Some(2));
    assert_eq!(sim.node(3).state().voted_for, Some(3));
    // Both time out: node 2 after 200 ms, node 3 after 250 ms.
    sim.tick(2, last_heard + 450);
    sim.tick(3, last_heard + 500);
    assert_eq!(sim.node(2).role(), RaftRole::Follower);
    assert_eq!(sim.node(3).role(), RaftRole::Follower);
    assert_eq!(sim.node(2).state().voted_for, None);
    assert_eq!(sim.node(3).state().voted_for, None);
    assert_eq!(sim.node(2).state().current_term, 2);
    // A new election in term 3.
    sim.tick(2, last_heard + 451);
    sim.settle();
    assert_eq!(sim.node(2).role(), RaftRole::Leader);
    assert_eq!(sim.node(2).state().current_term, 3);
    assert_eq!(sim.node(3).role(), RaftRole::Follower);
    assert_eq!(sim.node(3).state().current_term, 3);
    assert_eq!(sim.node(3).state().voted_for, Some(2));
}

#[test]
fn stale_leader() {
    let mut sim = Sim::new(3);
    sim.bootstrap();
    // Node 1 is cut off and takes two writes nobody else sees.
    sim.cut[0] = true;
    sim.write(1, b"lost 1");
    sim.write(1, b"lost 2");
    assert_eq!(sim.terms(1), vec![(1, 1), (2, 1), (3, 1)]);
    let last_heard = MIN + HEARTBEAT;
    sim.tick(2, last_heard + 200);
    sim.settle();
    assert_eq!(sim.node(2).role(), RaftRole::Leader);
    sim.write(2, b"kept");
    sim.tick(2, last_heard + 200);
    sim.settle();
    assert_eq!(sim.terms(2), vec![(1, 1), (2, 2), (3, 2)]);
    assert_eq!(sim.node(2).state().commit_index, 3);
    // Node 1 comes back and hears from the leader of term 2.
    sim.cut[0] = false;
    sim.queue.clear();
    sim.tick(2, last_heard + 250);
    let first = sim.queue.pop_front().unwrap();
    assert_eq!(first.to, Address::Peer(1));
    sim.apply(1, first.command);
    assert_eq!(sim.node(1).role(), RaftRole::Follower);
    assert_eq!(sim.node(1).state().current_term, 2);
    assert_eq!(sim.node(1).leader_id(), Some(2));
    sim.settle();
    let mut now = last_heard + 250;
    for _ in 0..4 {
        now += HEARTBEAT;
        sim.tick(2, now);
        sim.settle();
    }
    assert_eq!(sim.terms(1), vec![(1, 1), (2, 2), (3, 2)]);
    assert_eq!(sim.node(1).state().commit_index, 3);
    assert_eq!(sim.seen(1), vec![b"kept".to_vec()]);
    assert_eq!(sim.seen(2), vec![b"kept".to_vec()]);
}

#[test]
fn fsm_apply_ordering() {
    let mut sim = Sim::new(3);
    sim.bootstrap();
    sim.write(1, b"A");
    sim.write(1, b"B");
    sim.write(1, b"C");
    let mut now = MIN + HEARTBEAT;
    for _ in 0..3 {
        now += HEARTBEAT;
        sim.tick(1, now);
        sim.settle();
    }
    for id in 1..=3 {
        let fsm = sim.drivers[id - 1].take().unwrap().into_fsm();
        assert_eq!(fsm.seen, vec![b"A".to_vec(), b"B".to_vec(), b"C".to_vec()]);
    }
}

#[test]
fn query_goes_to_the_local_driver() {
    let mut sim = Sim::new(3);
    sim.bootstrap();
    let handle = sim.nodes[1].take().unwrap();
    let handle = handle
        .apply(Command::ClientRequest { id: 9, op: ClientOp::Query(b"q".to_vec()) })
        .unwrap();
    let (handle, instructions) = handle.take_instructions();
    assert_eq!(instructions, vec![Instruction::Query { id: 9, query: b"q".to_vec() }]);
    let (handle, messages) = handle.take_messages();
    assert!(messages.is_empty());
    assert_eq!(handle.role(), RaftRole::Follower);
}

#[test]
fn single_node_elects_itself() {
    let mut sim = Sim::new(1);
    sim.apply(1, Command::Timeout);
    assert_eq!(sim.node(1).role(), RaftRole::Leader);
    assert_eq!(sim.node(1).state().current_term, 1);
    assert_eq!(sim.terms(1), vec![(1, 1)]);
    assert!(sim.queue.is_empty());
}
