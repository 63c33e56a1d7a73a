use josefine_raft::broker::{Broker, Server};
use josefine_raft::config::{ConfigError, RaftConfig};
use josefine_raft::election::{contains_id, distinct_ids, Election, ElectionStatus};
use josefine_raft::error::RaftError;
use josefine_raft::log::{numbered_from, Log, LogError};
use josefine_raft::progress::{NodeProgress, ReplicationProgress};
use josefine_raft::raft::{
    clone_command, clone_entries, Apply, ClientOp, Command, Entry, EntryType, Node, NodeId,
    RaftHandle, RaftRole, Role, SocketAddress, State,
};
use josefine_raft::rpc::{Address, RpcMessage};

fn entry(index: u64, term: u64, data: &[u8]) -> Entry {
    Entry { entry_type: EntryType::Entry { data: data.to_vec() }, term, index }
}

fn log_of(terms: &[u64]) -> Log {
    let mut log = Log::new();
    for (k, term) in terms.iter().enumerate() {
        assert_eq!(log.append(vec![entry(k as u64 + 1, *term, &[k as u8])]), Ok(()));
    }
    log
}

fn peer(id: NodeId) -> Node {
    Node { id, addr: SocketAddress { ip: 0x7f00_0001, port: 7000 } }
}

fn config(id: NodeId, peers: &[NodeId]) -> RaftConfig {
    RaftConfig {
        node_id: id,
        peers: peers.iter().map(|p| peer(*p)).collect(),
        min_election_timeout_ms: 150,
        max_election_timeout_ms: 300,
        heartbeat_interval_ms: 50,
    }
}

#[test]
fn state_default() {
    let s = State::default();
    assert_eq!(s.current_term, 0);
    assert_eq!(s.voted_for, None);
    assert_eq!(s.commit_index, 0);
    assert_eq!(s.last_applied, 0);
    assert_eq!(s.election_time, None);
    assert_eq!(s.election_timeout, None);
    assert_eq!(s.min_election_timeout, 10);
    assert_eq!(s.max_election_timeout, 1000);
    assert!(!s.timer_expired(u64::MAX));
}

#[test]
fn election_timer_runs_out_at_the_deadline() {
    let s = State { election_time: Some(100), election_timeout: Some(50), ..State::default() };
    assert!(!s.timer_expired(0));
    assert!(!s.timer_expired(149));
    assert!(s.timer_expired(150));
    assert!(s.timer_expired(151));
    let late = State { election_time: Some(u64::MAX), election_timeout: Some(u64::MAX), ..s };
    assert!(!late.timer_expired(u64::MAX));
}

#[test]
fn timeout_is_picked_within_bounds() {
    let s = State { min_election_timeout: 150, max_election_timeout: 300, ..State::default() };
    assert_eq!(s.pick_timeout(0), 150);
    assert_eq!(s.pick_timeout(150), 300);
    assert_eq!(s.pick_timeout(151), 150);
    assert_eq!(s.pick_timeout(1000), 150 + 1000 % 151);
    assert_eq!(s.pick_timeout(u64::MAX), 150 + u64::MAX % 151);
}

#[test]
fn empty_log() {
    let log = Log::new();
    assert_eq!(log.last_index(), 0);
    assert_eq!(log.last_term(), 0);
    assert_eq!(log.term_at(0), None);
    assert_eq!(log.term_at(1), None);
    assert_eq!(log.entry_at(1), None);
    assert_eq!(log.range(1, 5), Ok(Vec::new()));
    assert_eq!(log.range(0, 5), Err(LogError::OutOfRange));
}

#[test]
fn log_append_takes_contiguous_entries_only() {
    let mut log = Log::new();
    assert_eq!(log.append(vec![entry(1, 1, b"a"), entry(2, 1, b"b")]), Ok(()));
    assert_eq!(log.last_index(), 2);
    assert_eq!(log.append(vec![entry(4, 1, b"d")]), Err(LogError::NonContiguous));
    assert_eq!(log.append(vec![entry(2, 1, b"b")]), Err(LogError::NonContiguous));
    assert_eq!(log.append(vec![entry(3, 2, b"c"), entry(5, 2, b"e")]), Err(LogError::NonContiguous));
    assert_eq!(log.last_index(), 2);
    assert_eq!(log.append(Vec::new()), Ok(()));
    assert_eq!(log.append(vec![entry(3, 2, b"c")]), Ok(()));
    assert_eq!(log.last_index(), 3);
    assert_eq!(log.last_term(), 2);
    assert_eq!(log.term_at(2), Some(1));
    assert_eq!(log.term_at(3), Some(2));
    assert_eq!(log.term_at(4), None);
    assert_eq!(log.entry_at(2), Some(entry(2, 1, b"b")));
    assert!(log.accepts(&vec![entry(4, 2, b"d")]));
    assert!(!log.accepts(&vec![entry(3, 2, b"c")]));
    assert!(numbered_from(7, &vec![entry(8, 1, b""), entry(9, 1, b"")]));
    assert!(!numbered_from(u64::MAX - 1, &vec![entry(u64::MAX, 1, b"")]));
}

#[test]
fn log_truncate_from_spares_what_is_committed() {
    let mut log = log_of(&[1, 1, 2, 2, 3]);
    assert_eq!(log.truncate_from(3, 3), Err(LogError::Committed));
    assert_eq!(log.truncate_from(1, 1), Err(LogError::Committed));
    assert_eq!(log.truncate_from(0, 1), Err(LogError::Committed));
    assert_eq!(log.last_index(), 5);
    assert_eq!(log.truncate_from(9, 3), Ok(()));
    assert_eq!(log.last_index(), 5);
    assert_eq!(log.truncate_from(4, 3), Ok(()));
    assert_eq!(log.last_index(), 3);
    assert_eq!(log.last_term(), 2);
    assert_eq!(log.truncate_from(4, 3), Ok(()));
    assert_eq!(log.last_index(), 3);
    assert_eq!(log.truncate_from(0, 0), Ok(()));
    assert_eq!(log.last_index(), 0);
}

#[test]
fn log_range_is_half_open_and_clamped() {
    let log = log_of(&[1, 1, 2, 2, 3]);
    let indices = |from, to| -> Vec<u64> {
        log.range(from, to).unwrap().iter().map(|e| e.index).collect()
    };
    assert_eq!(indices(1, 6), vec![1, 2, 3, 4, 5]);
    assert_eq!(indices(2, 4), vec![2, 3]);
    assert_eq!(indices(3, 3), Vec::<u64>::new());
    assert_eq!(indices(4, 2), Vec::<u64>::new());
    assert_eq!(indices(4, 100), vec![4, 5]);
    assert_eq!(indices(6, 7), Vec::<u64>::new());
    assert_eq!(indices(9, 12), Vec::<u64>::new());
    assert_eq!(indices(1, 0), Vec::<u64>::new());
    assert_eq!(log.range(0, 3), Err(LogError::OutOfRange));
    assert_eq!(log.range(2, 3).unwrap(), vec![entry(2, 1, &[1])]);
}

#[test]
fn election_of_three() {
    let mut e = Election::new(4, vec![1, 2, 3]);
    assert_eq!(e.term(), 4);
    assert_eq!(e.election_status(), ElectionStatus::Voting);
    e.vote(1, true);
    assert_eq!(e.election_status(), ElectionStatus::Voting);
    e.vote(1, true);
    assert_eq!(e.election_status(), ElectionStatus::Voting);
    e.vote(9, true);
    assert_eq!(e.election_status(), ElectionStatus::Voting);
    e.vote(2, false);
    assert_eq!(e.election_status(), ElectionStatus::Voting);
    e.vote(2, true);
    assert_eq!(e.election_status(), ElectionStatus::Voting);
    e.vote(3, true);
    assert_eq!(e.election_status(), ElectionStatus::Elected);
    e.reset();
    assert_eq!(e.election_status(), ElectionStatus::Voting);
    assert_eq!(e.term(), 4);
}

#[test]
fn election_is_lost_once_a_quorum_is_out_of_reach() {
    let mut e = Election::new(1, vec![1, 2, 3, 4, 5]);
    e.vote(1, true);
    e.vote(2, false);
    e.vote(3, false);
    assert_eq!(e.election_status(), ElectionStatus::Voting);
    e.vote(4, false);
    assert_eq!(e.election_status(), ElectionStatus::Defeated);
    let mut four = Election::new(1, vec![1, 2, 3, 4]);
    four.vote(1, true);
    four.vote(2, true);
    assert_eq!(four.election_status(), ElectionStatus::Voting);
    four.vote(3, false);
    assert_eq!(four.election_status(), ElectionStatus::Voting);
    four.vote(4, false);
    assert_eq!(four.election_status(), ElectionStatus::Defeated);
    let mut alone = Election::new(1, vec![7]);
    assert_eq!(alone.election_status(), ElectionStatus::Voting);
    alone.vote(7, true);
    assert_eq!(alone.election_status(), ElectionStatus::Elected);
}

#[test]
fn ids_are_found_and_told_apart() {
    assert!(contains_id(&vec![1, 2, 3], 2));
    assert!(!contains_id(&vec![1, 2, 3], 4));
    assert!(!contains_id(&Vec::new(), 0));
    assert!(distinct_ids(&vec![1, 2, 3]));
    assert!(distinct_ids(&Vec::new()));
    assert!(!distinct_ids(&vec![1, 2, 1]));
    assert!(!distinct_ids(&vec![5, 5]));
}

#[test]
fn progress_of_a_new_leader() {
    let p = ReplicationProgress::new(&vec![2, 3], 1, 7);
    assert_eq!(p.len(), 3);
    assert_eq!(p.at(0), NodeProgress { id: 2, next_index: 8, match_index: 0 });
    assert_eq!(p.at(1), NodeProgress { id: 3, next_index: 8, match_index: 0 });
    assert_eq!(p.at(2), NodeProgress { id: 1, next_index: 8, match_index: 7 });
    assert_eq!(p.find(3), 1);
    assert_eq!(p.find(1), 2);
    assert_eq!(p.find(9), 3);
    assert_eq!(p.acks(0), 3);
    assert_eq!(p.acks(1), 1);
    assert_eq!(p.acks(7), 1);
    assert_eq!(p.acks(8), 0);
}

#[test]
fn progress_moves_forward_and_back() {
    let mut p = ReplicationProgress::new(&vec![2, 3], 1, 7);
    p.retreat(2);
    assert_eq!(p.at(0), NodeProgress { id: 2, next_index: 7, match_index: 0 });
    p.advance(2, 5);
    assert_eq!(p.at(0), NodeProgress { id: 2, next_index: 6, match_index: 5 });
    p.advance(2, 3);
    assert_eq!(p.at(0), NodeProgress { id: 2, next_index: 6, match_index: 5 });
    p.advance(9, 3);
    p.retreat(9);
    assert_eq!(p.at(1), NodeProgress { id: 3, next_index: 8, match_index: 0 });
    assert_eq!(p.acks(5), 2);
    assert_eq!(p.acks(6), 1);
    let mut low = ReplicationProgress::new(&vec![2], 1, 0);
    low.retreat(2);
    low.retreat(2);
    assert_eq!(low.at(0), NodeProgress { id: 2, next_index: 1, match_index: 0 });
}

#[test]
fn config_is_checked_timing_first() {
    assert_eq!(config(1, &[2, 3]).validate(), Ok(()));
    assert_eq!(config(1, &[]).validate(), Ok(()));
    assert_eq!(config(1, &[2, 1]).validate(), Err(ConfigError::PeerSet));
    assert_eq!(config(1, &[2, 2]).validate(), Err(ConfigError::PeerSet));
    let mut c = config(1, &[2, 3]);
    c.max_election_timeout_ms = 150;
    assert_eq!(c.validate(), Err(ConfigError::Timing));
    let mut c = config(1, &[2, 3]);
    c.heartbeat_interval_ms = 150;
    assert_eq!(c.validate(), Err(ConfigError::Timing));
    let mut c = config(1, &[1, 1]);
    c.heartbeat_interval_ms = 150;
    assert_eq!(c.validate(), Err(ConfigError::Timing));
    assert_eq!(config(4, &[2, 3]).peer_ids(), vec![2, 3]);
    assert_eq!(config(4, &[2, 3]).clone().peer_ids(), vec![2, 3]);
}

#[test]
fn node_starts_as_follower_or_not_at_all() {
    let h = RaftHandle::new(config(1, &[2, 3]), 40, 7).unwrap();
    assert_eq!(h.role(), RaftRole::Follower);
    assert_eq!(h.id(), 1);
    assert_eq!(h.leader_id(), None);
    assert_eq!(h.log().last_index(), 0);
    assert_eq!(
        h.state(),
        State {
            current_term: 0,
            voted_for: None,
            commit_index: 0,
            last_applied: 0,
            election_time: Some(40),
            election_timeout: Some(157),
            min_election_timeout: 150,
            max_election_timeout: 300,
        }
    );
    assert!(matches!(
        RaftHandle::new(config(1, &[1]), 0, 0),
        Err(RaftError::Config(ConfigError::PeerSet))
    ));
    let mut c = config(1, &[2]);
    c.min_election_timeout_ms = 300;
    assert!(matches!(RaftHandle::new(c, 0, 0), Err(RaftError::Config(ConfigError::Timing))));
}

fn follower_at(term: u64, log: &[u64]) -> RaftHandle {
    let h = RaftHandle::new(config(3, &[1, 2]), 0, 0).unwrap();
    if term == 0 {
        return h;
    }
    let entries: Vec<Entry> =
        log.iter().enumerate().map(|(k, t)| entry(k as u64 + 1, *t, &[k as u8])).collect();
    let h = h
        .apply(Command::AppendEntries {
            term,
            leader_id: 1,
            prev_index: 0,
            prev_term: 0,
            entries,
            leader_commit: 0,
        })
        .unwrap();
    h.take_messages().0
}

fn only(messages: Vec<RpcMessage>) -> RpcMessage {
    assert_eq!(messages.len(), 1);
    messages.into_iter().next().unwrap()
}

#[test]
fn vote_is_granted_to_an_up_to_date_log_only() {
    // Own log ends in (index 2, term 2).
    let ask = |last_term, last_index| {
        let h = follower_at(2, &[1, 2]);
        let h = h
            .apply(Command::VoteRequest { term: 3, candidate_id: 2, last_term, last_index })
            .unwrap();
        let voted = h.state().voted_for;
        let (h, messages) = h.take_messages();
        assert_eq!(h.state().current_term, 3);
        let m = only(messages);
        assert_eq!(m.from, Address::Peer(3));
        assert_eq!(m.to, Address::Peer(2));
        match m.command {
            Command::VoteResponse { term: 3, from: 3, granted } => {
                assert_eq!(voted, if granted { Some(2) } else { None });
                granted
            }
            other => panic!("unexpected answer {:?}", other),
        }
    };
    assert!(ask(2, 2));
    assert!(ask(2, 3));
    assert!(ask(3, 1));
    assert!(ask(3, 0));
    assert!(!ask(2, 1));
    assert!(!ask(1, 9));
    assert!(!ask(0, 0));
}

#[test]
fn vote_is_given_once_per_term() {
    let h = follower_at(2, &[1]);
    let h = h
        .apply(Command::VoteRequest { term: 2, candidate_id: 1, last_term: 1, last_index: 1 })
        .unwrap();
    let (h, first) = h.take_messages();
    assert_eq!(only(first).command, Command::VoteResponse { term: 2, from: 3, granted: true });
    let h = h
        .apply(Command::VoteRequest { term: 2, candidate_id: 2, last_term: 5, last_index: 9 })
        .unwrap();
    let (h, second) = h.take_messages();
    assert_eq!(only(second).command, Command::VoteResponse { term: 2, from: 3, granted: false });
    let h = h
        .apply(Command::VoteRequest { term: 2, candidate_id: 1, last_term: 1, last_index: 1 })
        .unwrap();
    let (h, again) = h.take_messages();
    assert_eq!(only(again).command, Command::VoteResponse { term: 2, from: 3, granted: true });
    // A request of an earlier term is refused and changes nothing.
    let h = h
        .apply(Command::VoteRequest { term: 1, candidate_id: 1, last_term: 9, last_index: 9 })
        .unwrap();
    let (h, stale) = h.take_messages();
    assert_eq!(only(stale).command, Command::VoteResponse { term: 2, from: 3, granted: false });
    assert_eq!(h.state().voted_for, Some(1));
    assert_eq!(h.state().current_term, 2);
}

#[test]
fn append_is_refused_on_a_gap_or_another_term() {
    let append = |prev_index, prev_term, entries: Vec<Entry>| {
        let h = follower_at(2, &[1, 1, 2]);
        let h = h
            .apply(Command::AppendEntries {
                term: 2,
                leader_id: 1,
                prev_index,
                prev_term,
                entries,
                leader_commit: 0,
            })
            .unwrap();
        let last = h.log().last_index();
        let (_, messages) = h.take_messages();
        (only(messages).command, last)
    };
    // The log has no entry at index 4.
    assert_eq!(
        append(4, 2, vec![entry(5, 2, b"x")]),
        (Command::AppendResponse { term: 2, from: 3, index: 3, success: false }, 3)
    );
    // The entry at index 2 is of term 1.
    assert_eq!(
        append(2, 2, vec![entry(3, 2, b"x")]),
        (Command::AppendResponse { term: 2, from: 3, index: 3, success: false }, 3)
    );
    // The entries are not numbered from the index after `prev_index`.
    assert_eq!(
        append(3, 2, vec![entry(5, 2, b"x")]),
        (Command::AppendResponse { term: 2, from: 3, index: 3, success: false }, 3)
    );
    // What is already there is kept, what is new is added.
    assert_eq!(
        append(2, 1, vec![entry(3, 2, b"x"), entry(4, 2, b"y")]),
        (Command::AppendResponse { term: 2, from: 3, index: 4, success: true }, 4)
    );
    // An empty request at the end of the log.
    assert_eq!(
        append(3, 2, Vec::new()),
        (Command::AppendResponse { term: 2, from: 3, index: 3, success: true }, 3)
    );
    // A request that ends before the end of the log leaves the rest alone.
    assert_eq!(
        append(0, 0, vec![entry(1, 1, b"x")]),
        (Command::AppendResponse { term: 2, from: 3, index: 1, success: true }, 3)
    );
}

#[test]
fn append_replaces_a_conflicting_tail_but_nothing_committed() {
    let h = follower_at(2, &[1, 1, 2]);
    let h = h
        .apply(Command::AppendEntries {
            term: 3,
            leader_id: 2,
            prev_index: 1,
            prev_term: 1,
            entries: vec![entry(2, 3, b"n")],
            leader_commit: 2,
        })
        .unwrap();
    assert_eq!(h.log().last_index(), 2);
    assert_eq!(h.log().term_at(2), Some(3));
    assert_eq!(h.state().commit_index, 2);
    assert_eq!(h.state().last_applied, 2);
    assert_eq!(h.leader_id(), Some(2));
    let (h, instructions) = h.take_instructions();
    assert_eq!(instructions.len(), 2);
    let (h, messages) = h.take_messages();
    assert_eq!(
        only(messages).command,
        Command::AppendResponse { term: 3, from: 3, index: 2, success: true }
    );
    // Index 2 is committed now: a request that contradicts it is refused.
    let h = h
        .apply(Command::AppendEntries {
            term: 4,
            leader_id: 1,
            prev_index: 1,
            prev_term: 1,
            entries: vec![entry(2, 4, b"m")],
            leader_commit: 0,
        })
        .unwrap();
    assert_eq!(h.log().term_at(2), Some(3));
    let (h, messages) = h.take_messages();
    assert_eq!(
        only(messages).command,
        Command::AppendResponse { term: 4, from: 3, index: 2, success: false }
    );
    assert_eq!(h.state().current_term, 4);
}

#[test]
fn stale_leader_is_told_the_term() {
    let h = follower_at(5, &[]);
    let h = h.apply(Command::Heartbeat { term: 4, leader_id: 2 }).unwrap();
    assert_eq!(h.leader_id(), Some(1));
    let (h, messages) = h.take_messages();
    assert_eq!(
        only(messages),
        RpcMessage {
            from: Address::Peer(3),
            to: Address::Peer(2),
            command: Command::AppendResponse { term: 5, from: 3, index: 0, success: false },
        }
    );
    let h = h.apply(Command::Heartbeat { term: 5, leader_id: 2 }).unwrap();
    assert_eq!(h.leader_id(), Some(2));
    let (_, messages) = h.take_messages();
    assert_eq!(
        only(messages).command,
        Command::AppendResponse { term: 5, from: 3, index: 0, success: true }
    );
}

#[test]
fn term_never_goes_back() {
    let mut terms = vec![0];
    let mut h = RaftHandle::new(config(3, &[1, 2]), 0, 0).unwrap();
    let commands = vec![
        Command::Heartbeat { term: 3, leader_id: 1 },
        Command::Heartbeat { term: 2, leader_id: 2 },
        Command::Timeout,
        Command::VoteResponse { term: 1, from: 1, granted: true },
        Command::VoteRequest { term: 2, candidate_id: 1, last_term: 0, last_index: 0 },
        Command::Tick { now: 1000, seed: 3 },
        Command::Timeout,
        Command::VoteResponse { term: 5, from: 1, granted: true },
        Command::AppendResponse { term: 4, from: 1, index: 0, success: false },
        Command::AppendEntries {
            term: 9,
            leader_id: 2,
            prev_index: 0,
            prev_term: 0,
            entries: Vec::new(),
            leader_commit: 0,
        },
        Command::Noop,
    ];
    for c in commands {
        h = h.apply(c).unwrap();
        terms.push(h.state().current_term);
    }
    assert_eq!(terms, vec![0, 3, 3, 4, 4, 4, 4, 5, 5, 5, 9, 9]);
    assert!(terms.windows(2).all(|w| w[0] <= w[1]));
}

#[test]
fn candidate_that_is_refused_by_all_gives_up() {
    let h = RaftHandle::new(config(1, &[2, 3]), 0, 0).unwrap();
    let h = h.apply(Command::Timeout).unwrap();
    assert_eq!(h.role(), RaftRole::Candidate);
    let h = h.apply(Command::VoteResponse { term: 1, from: 2, granted: false }).unwrap();
    assert_eq!(h.role(), RaftRole::Candidate);
    let h = h.apply(Command::VoteResponse { term: 1, from: 2, granted: true }).unwrap();
    assert_eq!(h.role(), RaftRole::Candidate);
    let h = h.apply(Command::VoteResponse { term: 1, from: 3, granted: false }).unwrap();
    assert_eq!(h.role(), RaftRole::Follower);
    assert_eq!(h.state().voted_for, None);
    assert_eq!(h.state().current_term, 1);
}

#[test]
fn candidate_yields_to_a_leader_of_its_term() {
    let h = RaftHandle::new(config(1, &[2, 3]), 0, 0).unwrap();
    let h = h.apply(Command::Timeout).unwrap().take_messages().0;
    let h = h
        .apply(Command::VoteRequest { term: 1, candidate_id: 2, last_term: 0, last_index: 0 })
        .unwrap();
    assert_eq!(h.role(), RaftRole::Candidate);
    let (h, messages) = h.take_messages();
    assert_eq!(only(messages).command, Command::VoteResponse { term: 1, from: 1, granted: false });
    let h = h
        .apply(Command::AppendEntries {
            term: 1,
            leader_id: 2,
            prev_index: 0,
            prev_term: 0,
            entries: vec![entry(1, 1, b"x")],
            leader_commit: 0,
        })
        .unwrap();
    assert_eq!(h.role(), RaftRole::Follower);
    assert_eq!(h.leader_id(), Some(2));
    assert_eq!(h.log().last_index(), 1);
    assert_eq!(h.state().voted_for, Some(1));
}

fn leader_of_three() -> RaftHandle {
    let h = RaftHandle::new(config(1, &[2, 3]), 0, 0).unwrap();
    let h = h.apply(Command::Timeout).unwrap();
    let h = h.apply(Command::VoteResponse { term: 1, from: 3, granted: true }).unwrap();
    assert_eq!(h.role(), RaftRole::Leader);
    h
}

#[test]
fn leader_announces_itself_and_appends_a_no_op() {
    let h = leader_of_three();
    assert_eq!(h.log().entry_at(1), Some(Entry {
        entry_type: EntryType::Command { command: Command::Noop },
        term: 1,
        index: 1,
    }));
    let (_, messages) = h.take_messages();
    let announcement = |to| RpcMessage {
        from: Address::Peer(1),
        to: Address::Peer(to),
        command: Command::AppendEntries {
            term: 1,
            leader_id: 1,
            prev_index: 0,
            prev_term: 0,
            entries: Vec::new(),
            leader_commit: 0,
        },
    };
    assert_eq!(messages.len(), 4);
    assert_eq!(messages[2], announcement(2));
    assert_eq!(messages[3], announcement(3));
}

#[test]
fn leader_commits_entries_of_its_own_term_only() {
    // A follower with two entries of term 1 wins term 2.
    let h = follower_at(1, &[1, 1]);
    let h = h.apply(Command::Timeout).unwrap();
    let h = h.apply(Command::VoteResponse { term: 2, from: 1, granted: true }).unwrap();
    assert_eq!(h.role(), RaftRole::Leader);
    assert_eq!(h.log().last_index(), 3);
    // A quorum holds index 2, but that entry is of term 1.
    let h = h.apply(Command::AppendResponse { term: 2, from: 1, index: 2, success: true }).unwrap();
    assert_eq!(h.state().commit_index, 0);
    // Once the entry of term 2 is on a quorum, all before it are committed with it.
    let h = h.apply(Command::AppendResponse { term: 2, from: 1, index: 3, success: true }).unwrap();
    assert_eq!(h.state().commit_index, 3);
    assert_eq!(h.state().last_applied, 3);
    let (h, instructions) = h.take_instructions();
    assert_eq!(instructions.len(), 3);
    // Answers that claim too much, come from strangers or from another term change nothing.
    let h = h.apply(Command::ClientRequest { id: 1, op: ClientOp::Mutate(b"w".to_vec()) }).unwrap();
    assert_eq!(h.log().last_index(), 4);
    let h = h.apply(Command::AppendResponse { term: 2, from: 1, index: 9, success: true }).unwrap();
    let h = h.apply(Command::AppendResponse { term: 2, from: 8, index: 4, success: true }).unwrap();
    let h = h.apply(Command::AppendResponse { term: 1, from: 2, index: 4, success: true }).unwrap();
    let h = h.apply(Command::AppendResponse { term: 2, from: 3, index: 4, success: true }).unwrap();
    assert_eq!(h.state().commit_index, 3);
    let h = h.apply(Command::AppendResponse { term: 2, from: 2, index: 4, success: true }).unwrap();
    assert_eq!(h.state().commit_index, 4);
}

#[test]
fn leader_steps_back_after_a_refusal() {
    let h = follower_at(1, &[1, 1]);
    let h = h.apply(Command::Timeout).unwrap();
    let h = h.apply(Command::VoteResponse { term: 2, from: 1, granted: true }).unwrap();
    let h = h.take_messages().0;
    let h = h.apply(Command::AppendResponse { term: 2, from: 2, index: 0, success: false }).unwrap();
    let h = h.apply(Command::Tick { now: 0, seed: 0 }).unwrap();
    let (h, messages) = h.take_messages();
    assert_eq!(messages.len(), 2);
    match &messages[0].command {
        Command::AppendEntries { prev_index: 2, prev_term: 1, entries, leader_commit: 0, .. } => {
            assert_eq!(entries.len(), 1);
        }
        other => panic!("unexpected request {:?}", other),
    }
    assert_eq!(messages[1].to, Address::Peer(2));
    match &messages[1].command {
        Command::AppendEntries { prev_index: 1, prev_term: 1, entries, .. } => {
            assert_eq!(entries.len(), 2);
            assert_eq!(entries[0].index, 2);
        }
        other => panic!("unexpected request {:?}", other),
    }
    // The heartbeat is not due before the interval has passed.
    let h = h.apply(Command::Tick { now: 49, seed: 0 }).unwrap();
    let (h, none) = h.take_messages();
    assert!(none.is_empty());
    let h = h.apply(Command::Tick { now: 50, seed: 0 }).unwrap();
    let (_, due) = h.take_messages();
    assert_eq!(due.len(), 2);
}

#[test]
fn leader_refuses_votes_and_appends_of_its_term() {
    let h = leader_of_three().take_messages().0;
    let h = h
        .apply(Command::VoteRequest { term: 1, candidate_id: 2, last_term: 9, last_index: 9 })
        .unwrap();
    let (h, messages) = h.take_messages();
    assert_eq!(only(messages).command, Command::VoteResponse { term: 1, from: 1, granted: false });
    let h = h.apply(Command::Heartbeat { term: 1, leader_id: 2 }).unwrap();
    let (h, messages) = h.take_messages();
    assert_eq!(
        only(messages).command,
        Command::AppendResponse { term: 1, from: 1, index: 1, success: false }
    );
    assert_eq!(h.role(), RaftRole::Leader);
    let h = h.apply(Command::Heartbeat { term: 2, leader_id: 2 }).unwrap();
    assert_eq!(h.role(), RaftRole::Follower);
    assert_eq!(h.state().current_term, 2);
    assert_eq!(h.state().voted_for, None);
}

#[test]
fn only_a_leader_takes_writes() {
    let h = follower_at(1, &[1]);
    let h = h.apply(Command::ClientRequest { id: 1, op: ClientOp::Mutate(b"w".to_vec()) }).unwrap();
    assert_eq!(h.log().last_index(), 1);
    let h = h.apply(Command::Timeout).unwrap();
    let h = h.apply(Command::ClientRequest { id: 1, op: ClientOp::Mutate(b"w".to_vec()) }).unwrap();
    assert_eq!(h.role(), RaftRole::Candidate);
    assert_eq!(h.log().last_index(), 1);
    let h = h.apply(Command::VoteResponse { term: 2, from: 2, granted: true }).unwrap();
    let h = h.apply(Command::ClientRequest { id: 1, op: ClientOp::Mutate(b"w".to_vec()) }).unwrap();
    assert_eq!(h.log().last_index(), 3);
    assert_eq!(h.log().entry_at(3), Some(entry(3, 2, b"w")));
}

#[test]
fn election_fails_at_the_last_term() {
    let h = follower_at(u64::MAX, &[]);
    assert!(matches!(h.apply(Command::Timeout), Err(RaftError::TermOverflow)));
}

#[test]
fn copies_are_equal() {
    let c = Command::AppendEntries {
        term: 2,
        leader_id: 1,
        prev_index: 0,
        prev_term: 0,
        entries: vec![
            entry(1, 1, b"a"),
            Entry { entry_type: EntryType::Config {}, term: 1, index: 2 },
            Entry {
                entry_type: EntryType::Command {
                    command: Command::ClientRequest { id: 4, op: ClientOp::Query(b"q".to_vec()) },
                },
                term: 2,
                index: 3,
            },
        ],
        leader_commit: 1,
    };
    assert_eq!(clone_command(&c), c);
    assert_eq!(c.clone(), c);
    let es = vec![entry(1, 1, b"a"), entry(2, 1, b"b")];
    assert_eq!(clone_entries(&es), es);
    let m = RpcMessage { from: Address::Local, to: Address::Broadcast, command: c };
    assert_eq!(m.clone(), m);
}

#[test]
fn broker_and_server_keep_what_they_are_given() {
    let s = Server::new(String::from("127.0.0.1:8844"));
    assert_eq!(s.address(), "127.0.0.1:8844");
    let b = Broker::new(1, String::from("127.0.0.1"), String::from("8844"));
    assert_eq!(b.id(), 1);
    assert_eq!(b.host(), "127.0.0.1");
    assert_eq!(b.port(), "8844");
}

#[test]
fn setting_the_term_only_ever_raises_it() {
    let h = follower_at(2, &[1]);
    let h = h
        .apply(Command::VoteRequest { term: 2, candidate_id: 1, last_term: 1, last_index: 1 })
        .unwrap();
    let mut raft = match h {
        RaftHandle::Follower(raft) => raft,
        _ => panic!("not a follower"),
    };
    assert_eq!(raft.role.role(), RaftRole::Follower);
    assert_eq!(raft.state.voted_for, Some(1));
    raft.term(2);
    assert_eq!(raft.state.current_term, 2);
    assert_eq!(raft.state.voted_for, Some(1));
    raft.term(1);
    assert_eq!(raft.state.current_term, 2);
    assert_eq!(raft.state.voted_for, Some(1));
    raft.term(7);
    assert_eq!(raft.state.current_term, 7);
    assert_eq!(raft.state.voted_for, None);
    assert_eq!(raft.outranked_by(&Command::Heartbeat { term: 7, leader_id: 1 }), None);
    assert_eq!(raft.outranked_by(&Command::Heartbeat { term: 8, leader_id: 1 }), Some(8));
    assert_eq!(raft.outranked_by(&Command::Tick { now: 9, seed: 9 }), None);
    let raft = raft.yield_to(9);
    assert_eq!(raft.state.current_term, 9);
    assert_eq!(raft.role.leader_id, None);
}

#[test]
fn a_new_term_clears_the_tally_of_a_candidate() {
    let h = RaftHandle::new(config(1, &[2, 3, 4, 5]), 0, 0).unwrap();
    let h = h.apply(Command::Timeout).unwrap();
    let h = h.apply(Command::VoteResponse { term: 1, from: 2, granted: true }).unwrap();
    let mut raft = match h {
        RaftHandle::Candidate(raft) => raft,
        _ => panic!("not a candidate"),
    };
    assert_eq!(raft.role.role(), RaftRole::Candidate);
    raft.term(3);
    assert_eq!(raft.state.current_term, 3);
    assert_eq!(raft.state.voted_for, None);
    // The two grants of term 1 are gone: two more do not make a quorum of five.
    let h = RaftHandle::Candidate(raft);
    let h = h.apply(Command::VoteResponse { term: 3, from: 3, granted: true }).unwrap();
    let h = h.apply(Command::VoteResponse { term: 3, from: 4, granted: true }).unwrap();
    assert_eq!(h.role(), RaftRole::Candidate);
    let h = h.apply(Command::VoteResponse { term: 3, from: 5, granted: true }).unwrap();
    assert_eq!(h.role(), RaftRole::Leader);
}

#[test]
fn election_is_needed_once_the_timer_has_run_out() {
    let h = RaftHandle::new(config(1, &[2, 3]), 100, 0).unwrap();
    let h = h.apply(Command::Tick { now: 249, seed: 0 }).unwrap();
    match &h {
        RaftHandle::Follower(raft) => assert!(!raft.needs_election()),
        _ => panic!("not a follower"),
    }
    let mut raft = match h {
        RaftHandle::Follower(raft) => raft,
        _ => panic!("not a follower"),
    };
    raft.now = 250;
    assert!(raft.needs_election());
    raft.state.election_time = None;
    assert!(!raft.needs_election());
    let follower = raft.into_follower();
    assert_eq!(follower.role.role(), RaftRole::Follower);
    let candidate = follower.into_candidate();
    assert_eq!(candidate.role.role(), RaftRole::Candidate);
    let follower = candidate.abandon();
    assert_eq!(follower.state.voted_for, None);
}
