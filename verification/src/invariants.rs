use vstd::prelude::*;
use crate::candidate::{campaign, standing};
use crate::election::{lemma_recorded_wf, recorded};
use crate::follower::{acceptable, first_new, follower_step, lemma_first_new_held, merged};
use crate::leader::{lead, lemma_highest_committable, lemma_own_position};
use crate::log::{continues, log_wf};
use crate::node::{as_follower, at_term, node_wf, step, yielded, NodeModel, RoleModel};
use crate::progress::{advanced, initial, lemma_position, position};
use crate::fsm::InstructionModel;
use crate::progress::NodeProgress;
use crate::raft::{CommandModel, EntryModel, LogIndex, NodeId};
use crate::rpc::MessageModel;

verus! {

/// A step changes neither who a node is nor what it was configured with.
pub proof fn step_keeps_identity(n: NodeModel, c: CommandModel)
    ensures
        step(n, c) matches Ok(o) ==> {
            &&& o.node.id == n.id
            &&& o.node.peers == n.peers
            &&& o.node.heartbeat_interval == n.heartbeat_interval
            &&& o.node.state.min_election_timeout == n.state.min_election_timeout
            &&& o.node.state.max_election_timeout == n.state.max_election_timeout
        },
{
}

/// The term of a node never goes back: whatever the command, the term
/// after a step is at least the term before.
pub proof fn term_never_decreases(n: NodeModel, c: CommandModel)
    ensures
        step(n, c) matches Ok(o) ==> o.node.state.current_term >= n.state.current_term,
{
}

/// Telling a node of a term never lowers its term.
pub proof fn told_term_never_decreases(n: NodeModel, term: u64)
    ensures
        at_term(n, term).state.current_term >= n.state.current_term,
{
}

/// A leader neither shortens nor rewrites its log: as long as a node is
/// leader before and after a step, the log before is a prefix of the log
/// after.
pub proof fn leader_appends_only(n: NodeModel, c: CommandModel)
    requires
        n.role is Leader,
    ensures
        step(n, c) matches Ok(o) ==> (o.node.role is Leader ==> n.log.is_prefix_of(o.node.log)),
{
}

/// Only a leader takes a client's command into its log: a step that
/// receives one leaves the log of a node that is not leader after the step
/// as it was.
pub proof fn only_leader_takes_writes(n: NodeModel, c: CommandModel)
    requires
        c is ClientRequest,
    ensures
        step(n, c) matches Ok(o) ==> (o.node.role is Leader && n.role is Leader) || o.node.log
            == n.log,
{
}

/// The merged log of a follower is well formed and reaches at least as far
/// as what was committed.
pub proof fn lemma_merged_wf(
    n: NodeModel,
    prev_index: LogIndex,
    prev_term: u64,
    es: Seq<EntryModel>,
)
    requires
        node_wf(n),
        acceptable(n, prev_index, prev_term, es),
    ensures
        log_wf(merged(n.log, prev_index, es)),
        merged(n.log, prev_index, es).len() >= n.state.commit_index,
        first_new(n.log, prev_index, es, 0) < es.len() ==> merged(n.log, prev_index, es).len()
            == prev_index + es.len(),
        merged(n.log, prev_index, es).len() >= prev_index + es.len(),
{
    let k = first_new(n.log, prev_index, es, 0);
    crate::follower::lemma_first_new_bounds(n.log, prev_index, es, 0);
    if k > 0 {
        lemma_first_new_held(n.log, prev_index, es, k - 1);
    }
}

/// A step keeps the invariants of a node.
pub proof fn step_keeps_wf(n: NodeModel, c: CommandModel)
    requires
        node_wf(n),
    ensures
        step(n, c) matches Ok(o) ==> node_wf(o.node),
{
    let m = yielded(n, c);
    assert(node_wf(m));
    match m.role {
        RoleModel::Follower { .. } => {
            follower_keeps_wf(m, c);
        },
        RoleModel::Candidate { election } => {
            match c {
                CommandModel::VoteResponse { term, from, granted } => {
                    lemma_recorded_wf(election, from, granted);
                    if term == m.state.current_term {
                        let counted = NodeModel {
                            role: RoleModel::Candidate {
                                election: recorded(election, from, granted),
                            },
                            ..m
                        };
                        lead_keeps_wf(counted);
                    }
                },
                CommandModel::AppendEntries { .. } => {
                    follower_keeps_wf(as_follower(m), c);
                },
                CommandModel::Heartbeat { .. } => {
                    follower_keeps_wf(as_follower(m), c);
                },
                _ => {},
            }
        },
        RoleModel::Leader { progress, .. } => {
            match c {
                CommandModel::AppendResponse { term, from, index, success } => {
                    lemma_position(progress, from, 0);
                    if term == m.state.current_term && position(progress, from) < m.peers.len()
                        && success && index <= m.log.len() {
                        let told = advanced(progress, from, index);
                        lemma_highest_committable(m, told, m.log.len() as int);
                    }
                },
                CommandModel::ClientRequest { .. } => {
                    lemma_own_position(m.peers, m.id, progress);
                },
                _ => {},
            }
        },
    }
}

/// Taking office keeps the invariants of a node.
pub proof fn lead_keeps_wf(n: NodeModel)
    requires
        node_wf(n),
    ensures
        lead(n) matches Ok(o) ==> node_wf(o.node),
{
    lemma_own_position(n.peers, n.id, initial(n.peers, n.id, n.log.len() as u64));
}

/// Starting an election keeps the invariants of a node.
pub proof fn campaign_keeps_wf(n: NodeModel)
    requires
        node_wf(n),
    ensures
        campaign(n) matches Ok(o) ==> node_wf(o.node),
{
    if n.state.current_term < u64::MAX {
        let c = standing(n);
        assert(c.peers.push(c.id).no_duplicates()) by {
            let v = c.peers.push(c.id);
            assert forall|i: int, j: int| 0 <= i < v.len() && 0 <= j < v.len() && i != j implies v[i]
                != v[j] by {
                if i < c.peers.len() {
                    assert(c.peers.contains(c.peers[i]));
                }
                if j < c.peers.len() {
                    assert(c.peers.contains(c.peers[j]));
                }
            }
        }
        assert(c.peers.push(c.id).contains(c.id)) by {
            assert(c.peers.push(c.id)[c.peers.len() as int] == c.id);
        }
        assert(node_wf(c));
        lead_keeps_wf(c);
    }
}

/// A step of a follower keeps the invariants of a node.
pub proof fn follower_keeps_wf(n: NodeModel, c: CommandModel)
    requires
        node_wf(n),
        n.role is Follower,
    ensures
        follower_step(n, c) matches Ok(o) ==> node_wf(o.node),
{
    match c {
        CommandModel::Tick { now, seed } => {
            campaign_keeps_wf(crate::node::ticked(n, now, seed));
        },
        CommandModel::Timeout => {
            campaign_keeps_wf(n);
        },
        CommandModel::AppendEntries { prev_index, prev_term, entries, .. } => {
            if acceptable(n, prev_index, prev_term, entries) {
                lemma_merged_wf(n, prev_index, prev_term, entries);
            }
        },
        _ => {},
    }
}

/// What holds of a message that a node sent in the step that took it from
/// `before` to `after`: it is signed by the node, goes to one member, and
/// if it is a vote it carries the node's term; a grant is only ever given
/// by a node that ends the step as a follower that has voted for the
/// receiver, and that either came from a lower term or was a follower of
/// the same term that had voted for nobody else.
pub open spec fn sound_message(
    before: NodeModel,
    after: NodeModel,
    m: MessageModel,
) -> bool {
    &&& m.from == crate::rpc::Address::Peer(before.id)
    &&& m.to is Peer
    &&& m.command matches CommandModel::VoteResponse { term, from, granted } ==> {
        &&& from == before.id
        &&& term == after.state.current_term
        &&& granted ==> {
            &&& after.role is Follower
            &&& after.state.voted_for == Some(m.to->Peer_0)
            &&& before.state.current_term < term || (before.role is Follower
                && (before.state.voted_for is None || before.state.voted_for == Some(
                m.to->Peer_0,
            )))
        }
    }
}

/// Every message of a step is sound.
pub proof fn step_sends_sound(n: NodeModel, c: CommandModel)
    ensures
        step(n, c) matches Ok(o) ==> forall|k: int|
            0 <= k < o.messages.len() ==> sound_message(n, o.node, #[trigger] o.messages[k]),
{
}

/// Where the grants in the tally of a candidate come from: its own vote,
/// the tally it had before the step in the same term, or a grant of the
/// same term that the step received.
pub open spec fn backed(
    before: NodeModel,
    c: CommandModel,
    after: NodeModel,
    p: NodeId,
) -> bool {
    ||| p == after.id
    ||| before.role is Candidate && before.state.current_term == after.state.current_term
        && before.role->Candidate_election.granted.contains(p)
    ||| c == (CommandModel::VoteResponse {
        term: after.state.current_term,
        from: p,
        granted: true,
    })
}

/// Every grant in the tally of a candidate after a step is backed.
pub proof fn step_tallies_backed(n: NodeModel, c: CommandModel)
    ensures
        step(n, c) matches Ok(o) ==> (o.node.role matches RoleModel::Candidate { election }
            ==> forall|k: int|
            0 <= k < election.granted.len() ==> backed(n, c, o.node, #[trigger] election.granted[k])),
{
    match step(n, c) {
        Ok(o) => {
            match o.node.role {
                RoleModel::Candidate { election } => {
                    assert forall|k: int| 0 <= k < election.granted.len() implies backed(
                        n,
                        c,
                        o.node,
                        #[trigger] election.granted[k],
                    ) by {
                        if n.role is Candidate && k < n.role->Candidate_election.granted.len() {
                            assert(n.role->Candidate_election.granted.contains(
                                n.role->Candidate_election.granted[k],
                            ));
                        }
                    }
                },
                _ => {},
            }
        },
        Err(_) => {},
    }
}

/// How a node comes to lead after a step: it led before in the same term,
/// or a quorum of its voters stands in the tally that the step completed,
/// each grant in it backed.
pub open spec fn rightly_leads(before: NodeModel, c: CommandModel, after: NodeModel) -> bool {
    ||| before.role is Leader && before.state.current_term == after.state.current_term
    ||| exists|granted: Seq<NodeId>|
        {
            &&& #[trigger] granted.no_duplicates()
            &&& granted.len() >= crate::election::quorum((before.peers.len() + 1) as nat)
            &&& !(before.role is Leader)
            &&& before.role is Candidate ==> before.state.current_term
                == after.state.current_term
            &&& before.role is Follower ==> before.state.current_term
                < after.state.current_term
            &&& forall|k: int|
                0 <= k < granted.len() ==> backed(before, c, after, #[trigger] granted[k])
        }
}

/// Whoever leads after a step leads rightly.
pub proof fn step_elects_rightly(n: NodeModel, c: CommandModel)
    requires
        node_wf(n),
    ensures
        step(n, c) matches Ok(o) ==> (o.node.role is Leader ==> rightly_leads(n, c, o.node)),
{
    match step(n, c) {
        Ok(o) => {
            if o.node.role is Leader && !(n.role is Leader) {
                let m = yielded(n, c);
                if m.role is Candidate {
                    let e = m.role->Candidate_election;
                    assert(m == n);
                    match c {
                        CommandModel::VoteResponse { term, from, granted } => {
                            let r = recorded(e, from, granted);
                            lemma_recorded_wf(e, from, granted);
                            assert forall|k: int| 0 <= k < r.granted.len() implies backed(
                                n,
                                c,
                                o.node,
                                #[trigger] r.granted[k],
                            ) by {
                                if k < e.granted.len() {
                                    assert(e.granted.contains(e.granted[k]));
                                }
                            }
                            assert(r.granted.no_duplicates());
                            assert(r.voters.len() == n.peers.len() + 1);
                        },
                        _ => {},
                    }
                } else {
                    let g = seq![n.id];
                    assert(g.no_duplicates());
                    assert(forall|k: int|
                        0 <= k < g.len() ==> backed(n, c, o.node, #[trigger] g[k]));
                }
            }
        },
        Err(_) => {},
    }
}

/// A leader stays leader of its term until it sees a higher one.
pub proof fn leader_keeps_office(n: NodeModel, c: CommandModel)
    requires
        n.role is Leader,
    ensures
        step(n, c) matches Ok(o) ==> o.node.state.current_term > n.state.current_term || (
        o.node.state.current_term == n.state.current_term && o.node.role is Leader),
{
}

/// A follower that has voted keeps its vote, and stays a follower, until
/// its term changes.
pub proof fn follower_keeps_vote(n: NodeModel, c: CommandModel)
    requires
        n.role is Follower,
        n.state.voted_for is Some,
    ensures
        step(n, c) matches Ok(o) ==> o.node.state.current_term > n.state.current_term || (
        o.node.state.current_term == n.state.current_term && o.node.role is Follower
            && o.node.state.voted_for == n.state.voted_for),
{
}

/// What holds of an append request that a node sent in a step that ended
/// in `after`: the node is leader then, the request carries its term and
/// id, its entries are the entries of the leader's log that follow
/// `prev_index`, and `prev_term` is the term of the leader's entry at
/// `prev_index`.
pub open spec fn sound_append(after: NodeModel, m: MessageModel) -> bool {
    m.command matches CommandModel::AppendEntries {
        term,
        leader_id,
        prev_index,
        prev_term,
        entries,
        leader_commit,
    } ==> {
        &&& after.role is Leader
        &&& term == after.state.current_term
        &&& leader_id == after.id
        &&& prev_index + entries.len() <= after.log.len()
        &&& forall|k: int|
            0 <= k < entries.len() ==> #[trigger] entries[k] == after.log[prev_index + k]
        &&& prev_index > 0 ==> after.log[prev_index - 1].term == prev_term
        &&& leader_commit <= prev_index + entries.len()
        &&& leader_commit <= after.state.commit_index
        &&& entries.len() > 0 ==> prev_index + entries.len() == after.log.len()
    }
}

/// Every append request of a step is sound.
pub proof fn step_appends_sound(n: NodeModel, c: CommandModel)
    requires
        node_wf(n),
    ensures
        step(n, c) matches Ok(o) ==> forall|k: int|
            0 <= k < o.messages.len() ==> sound_append(o.node, #[trigger] o.messages[k]),
{
    let m = yielded(n, c);
    assert(node_wf(m));
}

/// What a step can do to the log of a node: nothing; or the node, leader
/// after the step, has appended one entry of its term; or the node, a
/// follower, has merged the entries of an append request of its term.
pub open spec fn log_change(before: NodeModel, c: CommandModel, after: NodeModel) -> bool {
    ||| after.log == before.log
    ||| after.role is Leader && after.log.len() == before.log.len() + 1
        && after.log.last().term == after.state.current_term && before.log.is_prefix_of(
        after.log,
    )
    ||| c matches CommandModel::AppendEntries { term, prev_index, prev_term, entries, .. }
        && term == after.state.current_term && after.role is Follower && continues(
        prev_index as int,
        entries,
    ) && (prev_index == 0 || crate::log::term_at(before.log, prev_index) == Some(prev_term))
        && after.log == merged(before.log, prev_index, entries)
}

/// Every step changes the log in one of these ways.
pub proof fn step_changes_log(n: NodeModel, c: CommandModel)
    ensures
        step(n, c) matches Ok(o) ==> log_change(n, c, o.node),
{
}

/// What holds of an answer to an append that a node sent in a step: it
/// names the node and its term; an acceptance of a run is only ever sent by
/// a follower, in the step in which it took the run that ends at the index
/// the acceptance names.
pub open spec fn sound_answer(
    before: NodeModel,
    c: CommandModel,
    after: NodeModel,
    m: MessageModel,
) -> bool {
    m.command matches CommandModel::AppendResponse { term, from, index, success } ==> {
        &&& from == after.id
        &&& term == after.state.current_term
        &&& success && index > 0 ==> {
            &&& after.role is Follower
            &&& c matches CommandModel::AppendEntries {
                term: sent,
                prev_index,
                prev_term,
                entries,
                ..
            } && sent == term && index == prev_index + entries.len() && (prev_index == 0
                || crate::log::term_at(before.log, prev_index) == Some(prev_term)) && after.log
                == merged(before.log, prev_index, entries)
        }
    }
}

/// Every answer to an append of a step is sound.
pub proof fn step_answers_sound(n: NodeModel, c: CommandModel)
    ensures
        step(n, c) matches Ok(o) ==> forall|k: int|
            0 <= k < o.messages.len() ==> sound_answer(n, c, o.node, #[trigger] o.messages[k]),
{
}

/// What holds of a request for a vote that a node sent in a step: it names
/// the node and its term, which is higher than the term the node had, and
/// describes the log the node had; the node is then a candidate with that
/// log, or already leader with one entry more.
pub open spec fn sound_request(
    before: NodeModel,
    after: NodeModel,
    m: MessageModel,
) -> bool {
    m.command matches CommandModel::VoteRequest { term, candidate_id, last_term, last_index } ==> {
        &&& candidate_id == after.id
        &&& term == after.state.current_term
        &&& term > before.state.current_term
        &&& last_term == crate::log::last_term(before.log)
        &&& last_index == before.log.len()
        &&& after.role is Candidate ==> after.log == before.log
        &&& !(after.role is Follower)
    }
}

/// Every request for a vote of a step is sound.
pub proof fn step_requests_sound(n: NodeModel, c: CommandModel)
    requires
        node_wf(n),
    ensures
        step(n, c) matches Ok(o) ==> forall|k: int|
            0 <= k < o.messages.len() ==> sound_request(n, o.node, #[trigger] o.messages[k]),
{
}

/// A candidate that stays a candidate keeps its log and its term; one that
/// comes to lead has appended one entry of its term.
pub proof fn candidate_keeps_log(n: NodeModel, c: CommandModel)
    requires
        n.role is Candidate,
    ensures
        step(n, c) matches Ok(o) ==> {
            &&& o.node.role is Candidate ==> o.node.log == n.log && o.node.state.current_term
                == n.state.current_term
            &&& o.node.role is Leader ==> o.node.state.current_term == n.state.current_term
                && o.node.log.len() == n.log.len() + 1 && n.log.is_prefix_of(o.node.log)
        },
{
}

/// A node comes to be a candidate only by starting an election in a term
/// of its own, or by staying one.
pub proof fn candidate_from(n: NodeModel, c: CommandModel)
    ensures
        step(n, c) matches Ok(o) ==> (o.node.role is Candidate ==> (n.role is Candidate
            && o.node.state.current_term == n.state.current_term) || (o.node.state.current_term
            > n.state.current_term && o.node.log == n.log)),
{
}

/// A node comes to lead only as a candidate of the same term, or by
/// starting an election in a term of its own, or by staying leader.
pub proof fn leader_from(n: NodeModel, c: CommandModel)
    ensures
        step(n, c) matches Ok(o) ==> (o.node.role is Leader ==> {
            ||| n.role is Leader && o.node.state.current_term == n.state.current_term
            ||| n.role is Candidate && o.node.state.current_term == n.state.current_term
                && o.node.log.len() == n.log.len() + 1 && n.log.is_prefix_of(o.node.log)
            ||| o.node.state.current_term > n.state.current_term && o.node.log.len()
                == n.log.len() + 1 && n.log.is_prefix_of(o.node.log)
        }),
{
}

/// What a grant that a node sent in a step tells of the step: the node
/// answered a request of the receiver for a vote in the node's term, found
/// the log the request describes at least as up to date as its own, and
/// left its own log as it was.
pub open spec fn sound_grant(
    before: NodeModel,
    c: CommandModel,
    after: NodeModel,
    m: MessageModel,
) -> bool {
    m.command matches CommandModel::VoteResponse { granted: true, .. } ==> {
        &&& c matches CommandModel::VoteRequest { term, candidate_id, last_term, last_index }
            && term == after.state.current_term && m.to == crate::rpc::Address::Peer(candidate_id)
            && crate::follower::up_to_date(before.log, last_term, last_index)
        &&& after.log == before.log
    }
}

/// Every grant of a step is sound in this sense too.
pub proof fn step_grants_sound(n: NodeModel, c: CommandModel)
    ensures
        step(n, c) matches Ok(o) ==> forall|k: int|
            0 <= k < o.messages.len() ==> sound_grant(n, c, o.node, #[trigger] o.messages[k]),
{
}

/// Where the belief of a leader that a peer holds its log up to an index
/// comes from: it believes nothing yet, or it believed it before the step
/// as leader of the same term, or the step received the peer's acceptance
/// of that index in the leader's term.
pub open spec fn belief_backed(
    before: NodeModel,
    c: CommandModel,
    after: NodeModel,
    i: int,
) -> bool {
    let e = after.role->Leader_progress[i];
    ||| e.match_index == 0
    ||| before.role is Leader && before.state.current_term == after.state.current_term
        && before.role->Leader_progress[i].match_index == e.match_index
    ||| c == (CommandModel::AppendResponse {
        term: after.state.current_term,
        from: e.id,
        index: e.match_index,
        success: true,
    })
}

/// Every belief of a leader about a peer is backed after a step.
pub proof fn step_beliefs_backed(n: NodeModel, c: CommandModel)
    requires
        node_wf(n),
    ensures
        step(n, c) matches Ok(o) ==> (o.node.role is Leader ==> forall|i: int|
            0 <= i < o.node.peers.len() ==> #[trigger] belief_backed(n, c, o.node, i)),
{
    let m = yielded(n, c);
    assert(node_wf(m));
    match step(n, c) {
        Ok(o) => {
            if o.node.role is Leader {
                assert forall|i: int| 0 <= i < o.node.peers.len() implies #[trigger] belief_backed(
                    n,
                    c,
                    o.node,
                    i,
                ) by {
                    match m.role {
                        RoleModel::Leader { progress, .. } => {
                            assert(m == n);
                            match c {
                                CommandModel::AppendResponse { term, from, index, success } => {
                                    lemma_position(progress, from, 0);
                                },
                                CommandModel::ClientRequest { .. } => {
                                    lemma_own_position(m.peers, m.id, progress);
                                },
                                _ => {},
                            }
                        },
                        _ => {
                            let last = m.log.len() as u64;
                            lemma_own_position(m.peers, m.id, initial(m.peers, m.id, last));
                            if m.role is Candidate {
                                match c {
                                    CommandModel::VoteResponse { term, from, granted } => {
                                        let counted = NodeModel {
                                            role: RoleModel::Candidate {
                                                election: recorded(
                                                    m.role->Candidate_election,
                                                    from,
                                                    granted,
                                                ),
                                            },
                                            ..m
                                        };
                                        lemma_own_position(
                                            counted.peers,
                                            counted.id,
                                            initial(counted.peers, counted.id, last),
                                        );
                                    },
                                    _ => {},
                                }
                            }
                        },
                    }
                }
            }
        },
        Err(_) => {},
    }
}

/// What a step can do to the commit index of a node: nothing; or the
/// node, leader before and after, raises it to an index that holds an entry
/// of its term and that a quorum of its members is believed to hold; or the
/// node, a follower, has taken the entries of an append request of its
/// term and follows the commit index the request tells of.
pub open spec fn commit_change(before: NodeModel, c: CommandModel, after: NodeModel) -> bool {
    ||| after.state.commit_index == before.state.commit_index
    ||| before.role is Leader && after.role is Leader && after.log == before.log
        && before.state.commit_index < after.state.commit_index <= after.log.len()
        && after.log[after.state.commit_index - 1].term == after.state.current_term
        && crate::progress::acks(after.role->Leader_progress, after.state.commit_index)
        >= crate::election::quorum(after.role->Leader_progress.len())
    ||| c matches CommandModel::AppendEntries {
        term,
        prev_index,
        prev_term,
        entries,
        leader_commit,
        ..
    } && term == after.state.current_term && after.role is Follower && acceptable(
        before,
        prev_index,
        prev_term,
        entries,
    ) && after.log == merged(before.log, prev_index, entries) && after.state.commit_index
        == crate::follower::follower_commit(before.state.commit_index, leader_commit, after.log)
}

/// Every step changes the commit index in one of these ways; and whenever
/// a follower merges entries, no entry at or below its commit index goes.
pub proof fn step_changes_commit(n: NodeModel, c: CommandModel)
    requires
        node_wf(n),
    ensures
        step(n, c) matches Ok(o) ==> commit_change(n, c, o.node) && (o.node.log != n.log
            && !(o.node.role is Leader) ==> (c matches CommandModel::AppendEntries {
            prev_index,
            prev_term,
            entries,
            ..
        } && acceptable(n, prev_index, prev_term, entries))),
{
    let m = yielded(n, c);
    assert(node_wf(m));
    match m.role {
        RoleModel::Leader { progress, .. } => {
            match c {
                CommandModel::AppendResponse { term, from, index, success } => {
                    lemma_position(progress, from, 0);
                    if term == m.state.current_term && position(progress, from) < m.peers.len()
                        && success && index <= m.log.len() {
                        let told = advanced(progress, from, index);
                        lemma_highest_committable(m, told, m.log.len() as int);
                    }
                },
                _ => {},
            }
        },
        _ => {},
    }
}

/// The members that the first `k` entries of `p` believe to hold index
/// `n`.
pub open spec fn believers(p: Seq<NodeProgress>, n: LogIndex, k: int) -> Set<
    NodeId,
> {
    Set::new(
        |x: NodeId|
            exists|i: int| 0 <= i < k && i < p.len() && #[trigger] p[i].id == x && p[i].match_index >= n,
    )
}

/// Counting entries counts members when no member is listed twice.
pub proof fn lemma_count_believers(p: Seq<NodeProgress>, n: LogIndex, k: int)
    requires
        0 <= k <= p.len(),
        forall|i: int, j: int| 0 <= i < j < p.len() ==> (#[trigger] p[i]).id != (#[trigger] p[j]).id,
    ensures
        believers(p, n, k).finite(),
        believers(p, n, k).len() == crate::progress::acks_among(p, n, k),
    decreases k,
{
    if k == 0 {
        assert(believers(p, n, k) =~= Set::<NodeId>::empty());
    } else {
        lemma_count_believers(p, n, k - 1);
        let rest = believers(p, n, k - 1);
        if p[k - 1].match_index >= n {
            assert(!rest.contains(p[k - 1].id));
            assert(believers(p, n, k) =~= rest.insert(p[k - 1].id)) by {
                assert forall|x: NodeId| believers(p, n, k).contains(x) implies rest.insert(
                    p[k - 1].id,
                ).contains(x) by {
                    let i = choose|i: int|
                        0 <= i < k && i < p.len() && #[trigger] p[i].id == x && p[i].match_index
                            >= n;
                    if i < k - 1 {
                        assert(p[i].id == x);
                    }
                }
                assert forall|x: NodeId| rest.insert(p[k - 1].id).contains(
                    x,
                ) implies believers(p, n, k).contains(x) by {
                    if x == p[k - 1].id {
                        assert(p[k - 1].id == x);
                    } else {
                        let i = choose|i: int|
                            0 <= i < k - 1 && i < p.len() && #[trigger] p[i].id == x
                                && p[i].match_index >= n;
                        assert(p[i].id == x);
                    }
                }
            }
        } else {
            assert(believers(p, n, k) =~= rest) by {
                assert forall|x: NodeId| believers(p, n, k).contains(x) implies rest.contains(
                    x,
                ) by {
                    let i = choose|i: int|
                        0 <= i < k && i < p.len() && #[trigger] p[i].id == x && p[i].match_index
                            >= n;
                    assert(i < k - 1);
                    assert(p[i].id == x);
                }
                assert forall|x: NodeId| rest.contains(x) implies believers(
                    p,
                    n,
                    k,
                ).contains(x) by {
                    let i = choose|i: int|
                        0 <= i < k - 1 && i < p.len() && #[trigger] p[i].id == x
                            && p[i].match_index >= n;
                    assert(p[i].id == x);
                }
            }
        }
    }
}

/// Instructions that each hand over one entry hand over those entries.
pub proof fn lemma_handed_all(is: Seq<InstructionModel>, es: Seq<EntryModel>)
    requires
        is.len() == es.len(),
        forall|k: int|
            0 <= k < is.len() ==> #[trigger] is[k] == (InstructionModel::Apply {
                entry: es[k],
            }),
    ensures
        crate::cluster::handed(is) == es,
    decreases is.len(),
{
    if is.len() > 0 {
        lemma_handed_all(is.drop_last(), es.drop_last());
        assert(is.last() == is[is.len() - 1]);
        assert(es =~= es.drop_last() + seq![es.last()]);
    } else {
        assert(es =~= Seq::<EntryModel>::empty());
    }
}

/// What a step hands to the driver for application: the entries of the
/// log between what was handed over before and what is handed over now;
/// and what was committed before the step stays in the log as it was.
pub proof fn step_hands_committed(n: NodeModel, c: CommandModel)
    requires
        node_wf(n),
    ensures
        step(n, c) matches Ok(o) ==> {
            &&& n.state.last_applied <= o.node.state.last_applied <= o.node.log.len()
            &&& crate::cluster::handed(o.instructions) == o.node.log.subrange(
                n.state.last_applied as int,
                o.node.state.last_applied as int,
            )
            &&& n.state.commit_index <= o.node.log.len()
            &&& forall|j: int|
                0 <= j < n.state.commit_index ==> #[trigger] o.node.log[j] == n.log[j]
        },
{
    step_keeps_wf(n, c);
    match step(n, c) {
        Ok(o) => {
            let m = yielded(n, c);
            assert(node_wf(m));
            let from = n.state.last_applied as int;
            let to = o.node.state.last_applied as int;
            let es = o.node.log.subrange(from, to);
            step_changes_commit(n, c);
            step_changes_log(n, c);
            assert(forall|j: int|
                0 <= j < n.state.commit_index ==> #[trigger] o.node.log[j] == n.log[j]) by {
                if o.node.log != n.log && !(o.node.role is Leader) {
                    match c {
                        CommandModel::AppendEntries { prev_index, prev_term, entries, .. } => {
                            let k = first_new(n.log, prev_index, entries, 0);
                            crate::follower::lemma_first_new_bounds(
                                n.log,
                                prev_index,
                                entries,
                                0,
                            );
                            if k > 0 {
                                lemma_first_new_held(n.log, prev_index, entries, k - 1);
                            }
                        },
                        _ => {},
                    }
                }
            }
            if o.instructions.len() == 0 {
                assert(es =~= Seq::<EntryModel>::empty());
            } else if o.instructions[0] is Query {
                assert(o.instructions.len() == 1);
                assert(o.instructions.drop_last().len() == 0);
                assert(crate::cluster::handed(o.instructions.drop_last()) =~= Seq::<
                    EntryModel,
                >::empty());
                assert(o.instructions.last() == o.instructions[0]);
                assert(crate::cluster::handed(o.instructions) =~= Seq::<EntryModel>::empty());
                assert(es =~= Seq::<EntryModel>::empty());
            } else {
                assert(o.instructions.len() == to - from);
                lemma_handed_all(o.instructions, es);
            }
        },
        Err(_) => {},
    }
}

} // verus!
