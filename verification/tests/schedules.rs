use josefine_raft::config::RaftConfig;
use josefine_raft::fsm::Instruction;
use josefine_raft::raft::{
    Apply, ClientOp, Command, Entry, Node, NodeId, RaftHandle, RaftRole, SocketAddress,
};
use josefine_raft::rpc::{Address, RpcMessage};
use std::collections::HashMap;

/// A small generator of numbers that gives the same run for the same seed.
struct Rng(u64);

impl Rng {
    fn next(&mut self) -> u64 {
        self.0 ^= self.0 << 13;
        self.0 ^= self.0 >> 7;
        self.0 ^= self.0 << 17;
        self.0
    }

    fn below(&mut self, n: u64) -> u64 {
        self.next() % n
    }
}

/// A cluster whose messages may arrive late, twice, out of order or never,
/// together with what has been seen of it so far.
struct World {
    nodes: Vec<Option<RaftHandle>>,
    network: Vec<RpcMessage>,
    now: u64,
    /// Who was seen to lead in which term.
    leaders: HashMap<u64, NodeId>,
    /// The entries seen committed, by index, with the lowest term a node was
    /// in when it was seen to know the entry committed.
    committed: HashMap<u64, (Entry, u64)>,
    /// What each node has handed to its driver.
    applied: Vec<Vec<Entry>>,
    elections: u64,
    commits: u64,
}

fn config(id: NodeId, n: u32) -> RaftConfig {
    RaftConfig {
        node_id: id,
        peers: (1..=n)
            .filter(|p| *p != id)
            .map(|p| Node { id: p, addr: SocketAddress { ip: 0, port: 0 } })
            .collect(),
        min_election_timeout_ms: 150,
        max_election_timeout_ms: 300,
        heartbeat_interval_ms: 50,
    }
}

fn entries_of(h: &RaftHandle) -> Vec<Entry> {
    let log = h.log();
    (1..=log.last_index()).map(|i| log.entry_at(i).unwrap()).collect()
}

impl World {
    fn new(n: u32, rng: &mut Rng) -> World {
        World {
            nodes: (1..=n).map(|id| Some(RaftHandle::new(config(id, n), 0, rng.next()).unwrap())).collect(),
            network: Vec::new(),
            now: 0,
            leaders: HashMap::new(),
            committed: HashMap::new(),
            applied: (0..n).map(|_| Vec::new()).collect(),
            elections: 0,
            commits: 0,
        }
    }

    fn node(&self, id: NodeId) -> &RaftHandle {
        self.nodes[id as usize - 1].as_ref().unwrap()
    }

    fn apply(&mut self, id: NodeId, cmd: Command) {
        let slot = id as usize - 1;
        let before = self.nodes[slot].take().unwrap();
        let role = before.role();
        let term = before.state().current_term;
        let log = entries_of(&before);
        let committed = before.state().commit_index;

        let after = before.apply(cmd).unwrap();
        let (after, messages) = after.take_messages();
        let (after, instructions) = after.take_instructions();
        self.network.extend(messages);
        for i in instructions {
            if let Instruction::Apply { entry } = i {
                self.applied[slot].push(entry);
            }
        }

        // The term never goes back.
        assert!(after.state().current_term >= term);
        // What is committed is never taken back.
        assert!(after.state().commit_index >= committed);
        assert!(after.state().last_applied <= after.state().commit_index);
        assert!(after.state().commit_index <= after.log().last_index());
        let now = entries_of(&after);
        assert_eq!(&now[..committed as usize], &log[..committed as usize]);
        // A leader only ever appends.
        if role == RaftRole::Leader && after.role() == RaftRole::Leader {
            assert_eq!(after.state().current_term, term);
            assert!(now.len() >= log.len());
            assert_eq!(&now[..log.len()], &log[..]);
        }
        // At most one leader in a term.
        if after.role() == RaftRole::Leader {
            let known = *self.leaders.entry(after.state().current_term).or_insert(id);
            assert_eq!(known, id);
            if role != RaftRole::Leader {
                self.elections += 1;
            }
        }
        self.nodes[slot] = Some(after);
        self.check(id);
    }

    fn check(&mut self, id: NodeId) {
        let slot = id as usize - 1;
        let me = entries_of(self.node(id));
        let state = self.node(id).state();
        // What was handed to the driver is the log up to the last applied index.
        assert_eq!(&self.applied[slot][..], &me[..state.last_applied as usize]);
        // What one node knows committed, every node that knows that index committed agrees on.
        for index in 1..=state.commit_index {
            let entry = me[index as usize - 1].clone();
            match self.committed.get_mut(&index) {
                Some((known, term)) => {
                    assert_eq!(*known, entry);
                    if state.current_term < *term {
                        *term = state.current_term;
                    }
                }
                None => {
                    self.committed.insert(index, (entry, state.current_term));
                    self.commits += 1;
                }
            }
        }
        for other in 1..=self.nodes.len() as NodeId {
            let theirs = entries_of(self.node(other));
            // Where two logs hold the same term at an index, they are the same up to there.
            let both = me.len().min(theirs.len());
            if let Some(top) = (0..both).rev().find(|i| me[*i].term == theirs[*i].term) {
                assert_eq!(&me[..=top], &theirs[..=top]);
            }
            // Whoever leads in a term holds what was known committed by then.
            if self.node(other).role() == RaftRole::Leader {
                let term = self.node(other).state().current_term;
                for (index, (entry, known_in)) in self.committed.iter() {
                    if term >= *known_in {
                        assert_eq!(theirs.get(*index as usize - 1), Some(entry));
                    }
                }
            }
        }
    }

    fn step(&mut self, rng: &mut Rng) {
        let n = self.nodes.len() as u64;
        let id = (rng.below(n) + 1) as NodeId;
        match rng.below(10) {
            0 | 1 => {
                self.now += rng.below(40);
                self.apply(id, Command::Tick { now: self.now, seed: rng.next() });
            }
            2 => {
                let data = rng.next().to_be_bytes().to_vec();
                self.apply(id, Command::ClientRequest { id: 0, op: ClientOp::Mutate(data) });
            }
            3 => {
                if rng.below(40) == 0 {
                    self.apply(id, Command::Timeout);
                }
            }
            _ => {
                if self.network.is_empty() {
                    return;
                }
                let at = rng.below(self.network.len() as u64) as usize;
                let message = match rng.below(8) {
                    // The message arrives and stays in flight to arrive once more.
                    0 => self.network[at].clone(),
                    // The message is lost.
                    1 => {
                        self.network.swap_remove(at);
                        return;
                    }
                    _ => self.network.swap_remove(at),
                };
                match message.to {
                    Address::Peer(to) => self.apply(to, message.command),
                    other => panic!("a message to {:?}", other),
                }
            }
        }
    }
}

fn run(seed: u64, n: u32, steps: u32) -> World {
    let mut rng = Rng(seed);
    let mut world = World::new(n, &mut rng);
    for _ in 0..steps {
        world.step(&mut rng);
    }
    world
}

#[test]
fn random_schedules_of_three_nodes_are_safe() {
    let mut elections = 0;
    let mut commits = 0;
    for seed in 1..=12 {
        let world = run(0x9e37_79b9_7f4a_7c15 ^ seed, 3, 4000);
        elections += world.elections;
        commits += world.commits;
    }
    assert!(elections > 12);
    assert!(commits > 12);
}

#[test]
fn random_schedules_of_five_nodes_are_safe() {
    let mut elections = 0;
    let mut commits = 0;
    for seed in 1..=8 {
        let world = run(0xd1b5_4a32_d192_ed03 ^ seed, 5, 4000);
        elections += world.elections;
        commits += world.commits;
    }
    assert!(elections > 8);
    assert!(commits > 8);
}

#[test]
fn random_schedules_of_two_nodes_are_safe() {
    let world = run(42, 2, 6000);
    assert!(world.elections > 0);
}
