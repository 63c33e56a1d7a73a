use vstd::prelude::*;
use crate::cluster::{addressed_to, execution, init, local, next, next_by, starts, Cluster};
use crate::election::quorum;
use crate::follower::{first_new, merged, up_to_date};
use crate::invariants::{
    belief_backed, believers, lemma_count_believers, step_beliefs_backed, step_changes_commit,
    candidate_from, candidate_keeps_log, leader_from, sound_answer, sound_append,
    sound_grant, sound_message, sound_request, step_answers_sound, step_appends_sound,
    step_changes_log, step_grants_sound, step_keeps_identity, step_requests_sound,
};
use crate::log::last_term;
use crate::matching::{
    agrees, anchored, carried, lemma_merged_shape, log_invariant, records_grow,
    run_keeps_log_invariant, same_upto, step_grows_records, step_keeps_matching,
};
use crate::node::step;
use crate::raft::{CommandModel, EntryModel, LogIndex, NodeId, Term};
use crate::rpc::{Address, MessageModel};
use crate::safety::{
    election_invariant, grant, lemma_cluster_size, lemma_moved, lemma_quorums_meet,
    step_keeps_election_invariant, supporters,
};
use vstd::set_lib::lemma_len_subset;

verus! {

/// The terms of the entries of `log` never go down along the log.
pub open spec fn ordered(log: Seq<EntryModel>) -> bool {
    forall|i: int, j: int|
        0 <= i <= j < log.len() ==> (#[trigger] log[i]).term <= (#[trigger] log[j]).term
}

/// No entry of `log` has a term above `term`.
pub open spec fn capped(log: Seq<EntryModel>, term: int) -> bool {
    forall|i: int| 0 <= i < log.len() ==> (#[trigger] log[i]).term <= term
}

/// What an append request in the network has beside what it carries: its
/// last entry, if it has one, is of the term of the request, and it tells
/// of no commit beyond its last entry.
pub open spec fn closed_run(m: MessageModel) -> bool {
    m.command matches CommandModel::AppendEntries { term, prev_index, entries, leader_commit, .. }
        ==> {
        &&& entries.len() > 0 ==> entries.last().term == term
        &&& leader_commit <= prev_index + entries.len()
    }
}

/// The logs have the shape that leaders give them: terms never go down
/// along a log and never exceed the term of the node, or of the leader
/// whose log it is; the log of a candidate holds nothing of the
/// candidate's term; the log on record of a leader ends with an entry of
/// its term.
pub open spec fn shaped(c: Cluster) -> bool {
    &&& forall|id: NodeId|
        c.nodes.dom().contains(id) ==> {
            &&& ordered((#[trigger] c.nodes[id]).log)
            &&& capped(c.nodes[id].log, c.nodes[id].state.current_term as int)
            &&& c.nodes[id].role is Candidate ==> c.nodes[id].state.current_term >= 1 && capped(
                c.nodes[id].log,
                c.nodes[id].state.current_term - 1,
            )
        }
    &&& forall|term: Term| #[trigger]
        c.leader_logs.dom().contains(term) ==> {
            &&& term >= 1
            &&& ordered(c.leader_logs[term])
            &&& capped(c.leader_logs[term], term as int)
            &&& c.leader_logs[term].len() >= 1
            &&& c.leader_logs[term].last().term == term
        }
    &&& forall|m: MessageModel| #[trigger] c.network.contains(m) ==> closed_run(m)
}

/// The acceptance by which `from` tells `to` that it holds the log of the
/// leader of `term` up to `index`.
pub open spec fn ack(term: Term, from: NodeId, to: NodeId, index: LogIndex) -> MessageModel {
    MessageModel {
        from: Address::Peer(from),
        to: Address::Peer(to),
        command: CommandModel::AppendResponse { term, from, index, success: true },
    }
}

/// Every message names its sender where it names a node, and what it says
/// of the sender was true when it was sent: who asks for entries to be
/// appended was elected in the term it names, and who accepted entries up
/// to an index is at least in the term it names, whose leader's log
/// reaches as far.
pub open spec fn attributed(c: Cluster) -> bool {
    forall|m: MessageModel| #[trigger]
        c.network.contains(m) ==> (m.from matches Address::Peer(s) && {
            &&& m.command matches CommandModel::AppendResponse { term, from, index, success } ==> {
                &&& from == s
                &&& success && index > 0 ==> {
                    &&& c.nodes[s].state.current_term >= term
                    &&& c.leader_logs.dom().contains(term)
                    &&& index <= c.leader_logs[term].len()
                }
            }
            &&& m.command matches CommandModel::VoteRequest { candidate_id, .. } ==> candidate_id
                == s
            &&& m.command matches CommandModel::AppendEntries { term, leader_id, .. } ==> leader_id
                == s && c.elected.contains((term, s))
        })
}

/// What a request for a vote in the network says of the log of its sender
/// is true of the sender's log as long as it is candidate in the term of
/// the request, and of the log it took office with if it was elected.
pub open spec fn described(c: Cluster, m: MessageModel) -> bool {
    m.command matches CommandModel::VoteRequest { term, candidate_id, last_term, last_index } ==> {
        let n = c.nodes[candidate_id];
        &&& c.nodes.dom().contains(candidate_id)
        &&& n.state.current_term >= term
        &&& last_term < term
        &&& n.state.current_term == term && n.role is Candidate ==> last_index == n.log.len()
            && last_term == crate::log::last_term(n.log)
        &&& c.elected.contains((term, candidate_id)) ==> last_index < c.leader_logs[term].len()
            && last_term == crate::log::last_term(
            c.leader_logs[term].subrange(0, last_index as int),
        )
    }
}

/// Every request for a vote describes the log of its sender, and every
/// grant went to a node that is at least in the term of the grant.
pub open spec fn requested(c: Cluster) -> bool {
    &&& forall|m: MessageModel| #[trigger] c.network.contains(m) ==> described(c, m)
    &&& forall|term: Term, x: NodeId, y: NodeId| #[trigger]
        c.network.contains(grant(term, x, y)) ==> c.nodes.dom().contains(y)
            && c.nodes[y].state.current_term >= term
}

/// What holds of every reachable cluster as far as the shape of logs and
/// the truth of messages go.
pub open spec fn shape_invariant(c: Cluster) -> bool {
    &&& shaped(c)
    &&& attributed(c)
    &&& requested(c)
}

/// A step keeps the logs in shape.
pub proof fn step_keeps_shaped(c: Cluster, d: Cluster, id: NodeId, cmd: CommandModel)
    requires
        log_invariant(c),
        log_invariant(d),
        shaped(c),
        next_by(c, d, id, cmd),
    ensures
        shaped(d),
{
    lemma_moved(c, d, id, cmd);
    step_grows_records(c, d, id, cmd);
    let n = c.nodes[id];
    let o = step(n, cmd)->Ok_0;
    let after = d.nodes[id];
    step_changes_log(n, cmd);
    step_appends_sound(n, cmd);
    candidate_from(n, cmd);
    leader_from(n, cmd);
    assert(ordered(after.log) && capped(after.log, after.state.current_term as int)) by {
        if after.log == n.log {
        } else if after.role is Leader && after.log.len() == n.log.len() + 1
            && after.log.last().term == after.state.current_term && n.log.is_prefix_of(
            after.log,
        ) {
            assert forall|i: int| 0 <= i < after.log.len() implies (#[trigger] after.log[i]).term
                <= after.state.current_term by {
                if i < n.log.len() {
                    assert(after.log[i] == n.log[i]);
                }
            }
            assert forall|i: int, j: int| 0 <= i <= j < after.log.len() implies (
            #[trigger] after.log[i]).term <= (#[trigger] after.log[j]).term by {
                if j < n.log.len() {
                    assert(after.log[i] == n.log[i]);
                    assert(after.log[j] == n.log[j]);
                }
            }
        } else {
            match cmd {
                CommandModel::AppendEntries { term, prev_index, prev_term, entries, .. } => {
                    assert(!local(cmd));
                    let m = choose|m: MessageModel|
                        #[trigger] c.network.contains(m) && addressed_to(m, id) && m.command
                            == cmd;
                    assert(carried(c, m));
                    let whole = c.leader_logs[term];
                    lemma_merged_shape(c, n.log, whole, prev_index, prev_term, entries);
                    assert(after.log.len() == prev_index + entries.len());
                    assert forall|i: int| 0 <= i < after.log.len() implies (
                    #[trigger] after.log[i]).term <= after.state.current_term by {
                        assert(after.log[i] == whole[i]);
                    }
                    assert forall|i: int, j: int| 0 <= i <= j < after.log.len() implies (
                    #[trigger] after.log[i]).term <= (#[trigger] after.log[j]).term by {
                        assert(after.log[i] == whole[i]);
                        assert(after.log[j] == whole[j]);
                    }
                },
                _ => {},
            }
        }
    }
    assert forall|j: NodeId| d.nodes.dom().contains(j) implies {
        &&& ordered((#[trigger] d.nodes[j]).log)
        &&& capped(d.nodes[j].log, d.nodes[j].state.current_term as int)
        &&& d.nodes[j].role is Candidate ==> d.nodes[j].state.current_term >= 1 && capped(
            d.nodes[j].log,
            d.nodes[j].state.current_term - 1,
        )
    } by {
        if j == id && after.role is Candidate {
            if n.role is Candidate && after.state.current_term == n.state.current_term {
                candidate_keeps_log(n, cmd);
            }
        }
    }
    assert forall|term: Term| #[trigger] d.leader_logs.dom().contains(term) implies {
        &&& term >= 1
        &&& ordered(d.leader_logs[term])
        &&& capped(d.leader_logs[term], term as int)
        &&& d.leader_logs[term].len() >= 1
        &&& d.leader_logs[term].last().term == term
    } by {
        if after.role is Leader && term == after.state.current_term {
            assert(d.leader_logs[term] == after.log);
            if n.role is Leader && after.state.current_term == n.state.current_term {
                assert(c.leader_logs[term] == n.log);
                assert(c.leader_logs.dom().contains(term));
                assert(n.log.is_prefix_of(after.log));
                if after.log != n.log {
                    assert(after.log.last().term == term);
                } else {
                    assert(after.log.last().term == term);
                }
            } else {
                assert(after.log.len() == n.log.len() + 1);
                assert(after.log.last().term == term);
                assert(term >= 1);
            }
        } else {
            assert(c.leader_logs.dom().contains(term));
            assert(d.leader_logs[term] == c.leader_logs[term]);
        }
    }
    assert forall|m: MessageModel| #[trigger] d.network.contains(m) implies closed_run(m) by {
        if !c.network.contains(m) {
            let k = choose|k: int| 0 <= k < o.messages.len() && o.messages[k] == m;
            assert(sound_append(o.node, o.messages[k]));
            if m.command is AppendEntries && m.command->AppendEntries_entries.len() > 0 {
                let entries = m.command->AppendEntries_entries;
                assert(entries.last() == entries[entries.len() - 1]);
                assert(d.leader_logs[after.state.current_term] == after.log);
            }
        }
    }
}

/// A step keeps every message attributed.
pub proof fn step_keeps_attributed(c: Cluster, d: Cluster, id: NodeId, cmd: CommandModel)
    requires
        log_invariant(c),
        log_invariant(d),
        shaped(c),
        attributed(c),
        next_by(c, d, id, cmd),
    ensures
        attributed(d),
{
    lemma_moved(c, d, id, cmd);
    step_grows_records(c, d, id, cmd);
    let n = c.nodes[id];
    let o = step(n, cmd)->Ok_0;
    let after = d.nodes[id];
    step_appends_sound(n, cmd);
    step_answers_sound(n, cmd);
    step_requests_sound(n, cmd);
    assert forall|m: MessageModel| #[trigger] d.network.contains(m) implies (m.from matches Address::Peer(
        s,
    ) && {
        &&& m.command matches CommandModel::AppendResponse { term, from, index, success } ==> {
            &&& from == s
            &&& success && index > 0 ==> {
                &&& d.nodes[s].state.current_term >= term
                &&& d.leader_logs.dom().contains(term)
                &&& index <= d.leader_logs[term].len()
            }
        }
        &&& m.command matches CommandModel::VoteRequest { candidate_id, .. } ==> candidate_id == s
        &&& m.command matches CommandModel::AppendEntries { term, leader_id, .. } ==> leader_id
            == s && d.elected.contains((term, s))
    }) by {
        if c.network.contains(m) {
            match m.command {
                CommandModel::AppendResponse { term, from, index, success } => {
                    if success && index > 0 {
                        assert(c.leader_logs[term].is_prefix_of(d.leader_logs[term]));
                    }
                },
                _ => {},
            }
        } else {
            let k = choose|k: int| 0 <= k < o.messages.len() && o.messages[k] == m;
            assert(sound_append(o.node, o.messages[k]));
            assert(sound_answer(n, cmd, o.node, o.messages[k]));
            assert(sound_request(n, o.node, o.messages[k]));
            assert(sound_message(n, o.node, o.messages[k]));
            match (m.command, cmd) {
                (
                    CommandModel::AppendResponse { term, from, index, success },
                    CommandModel::AppendEntries { .. },
                ) => {
                    if success && index > 0 {
                        assert(!local(cmd));
                        let r = choose|r: MessageModel|
                            #[trigger] c.network.contains(r) && addressed_to(r, id) && r.command
                                == cmd;
                        assert(carried(c, r));
                        assert(c.leader_logs[term].is_prefix_of(d.leader_logs[term]));
                    }
                },
                _ => {},
            }
        }
    }
}

/// A step keeps every request for a vote true.
pub proof fn step_keeps_requested(c: Cluster, d: Cluster, id: NodeId, cmd: CommandModel)
    requires
        log_invariant(c),
        log_invariant(d),
        shaped(c),
        attributed(c),
        requested(c),
        next_by(c, d, id, cmd),
    ensures
        requested(d),
{
    lemma_moved(c, d, id, cmd);
    step_grows_records(c, d, id, cmd);
    let n = c.nodes[id];
    let o = step(n, cmd)->Ok_0;
    let after = d.nodes[id];
    step_requests_sound(n, cmd);
    step_grants_sound(n, cmd);
    candidate_from(n, cmd);
    leader_from(n, cmd);
    if n.role is Candidate {
        candidate_keeps_log(n, cmd);
    }
    assert forall|m: MessageModel| #[trigger] d.network.contains(m) implies described(d, m) by {
        match m.command {
            CommandModel::VoteRequest { term, candidate_id, last_term, last_index } => {
            if c.network.contains(m) {
                assert(described(c, m));
                if d.elected.contains((term, candidate_id)) {
                    if c.elected.contains((term, candidate_id)) {
                        assert(c.leader_logs[term].is_prefix_of(d.leader_logs[term]));
                        assert(c.leader_logs[term].subrange(0, last_index as int)
                            =~= d.leader_logs[term].subrange(0, last_index as int));
                    } else {
                        assert(candidate_id == id);
                        assert(d.leader_logs[term] == after.log);
                        assert(after.log.subrange(0, last_index as int) =~= n.log);
                    }
                }
            } else {
                let k = choose|k: int| 0 <= k < o.messages.len() && o.messages[k] == m;
                assert(sound_request(n, o.node, o.messages[k]));
                assert(candidate_id == id);
                assert(capped(n.log, n.state.current_term as int));
                if n.log.len() > 0 {
                    assert(n.log.last() == n.log[n.log.len() - 1]);
                }
                if d.elected.contains((term, candidate_id)) {
                    if c.elected.contains((term, id)) {
                        assert(c.nodes[id].state.current_term >= term);
                    }
                    assert(d.leader_logs[term] == after.log);
                    assert(after.log.subrange(0, last_index as int) =~= n.log);
                }
            }
            },
            _ => {},
        }
    }
    assert forall|term: Term, x: NodeId, y: NodeId| #[trigger]
        d.network.contains(grant(term, x, y)) implies d.nodes.dom().contains(y)
        && d.nodes[y].state.current_term >= term by {
        if !c.network.contains(grant(term, x, y)) {
            let g = grant(term, x, y);
            let k = choose|k: int| 0 <= k < o.messages.len() && o.messages[k] == g;
            assert(sound_grant(n, cmd, o.node, o.messages[k]));
            assert(sound_message(n, o.node, o.messages[k]));
            assert(!local(cmd));
            let r = choose|r: MessageModel|
                #[trigger] c.network.contains(r) && addressed_to(r, id) && r.command == cmd;
            assert(described(c, r));
        }
    }
}

/// Whether `x` has accepted the log of the leader of `term` up to index
/// `n` or beyond.
pub open spec fn acked(c: Cluster, term: Term, x: NodeId, n: int) -> bool {
    exists|to: NodeId, index: LogIndex|
        index >= n && #[trigger] c.network.contains(ack(term, x, to, index))
}

/// Whether `x` has held the entry that the leader of `term` made at index
/// `n`, and with it that leader's log up to there: as that leader, or by
/// accepting it.
pub open spec fn held(c: Cluster, term: Term, x: NodeId, n: int) -> bool {
    &&& 1 <= n
    &&& c.leader_logs.dom().contains(term)
    &&& n <= c.leader_logs[term].len()
    &&& c.leader_logs[term][n - 1].term == term
    &&& (c.elected.contains((term, x)) || acked(c, term, x, n))
}

/// Whether every leader of a term above `term` and up to `upper` holds the
/// log of the leader of `term` up to index `n`.
pub open spec fn clear(c: Cluster, term: Term, n: int, upper: int) -> bool {
    forall|later: Term|
        #[trigger] c.leader_logs.dom().contains(later) && term < later <= upper ==> same_upto(
            c.leader_logs[later],
            c.leader_logs[term],
            n,
        )
}

/// Who has held a leader's log up to an index still holds it, unless a
/// leader of a later term, no later than the last term in its own log,
/// does not.
pub open spec fn kept(c: Cluster) -> bool {
    forall|x: NodeId, term: Term, n: int|
        c.nodes.dom().contains(x) && #[trigger] held(c, term, x, n) && clear(
            c,
            term,
            n,
            last_term(c.nodes[x].log) as int,
        ) ==> same_upto(c.nodes[x].log, c.leader_logs[term], n)
}

/// What the support of node `x` for `y` in term `later` means for what `x`
/// has held: `y`, as long as it is candidate in `later`, and the leader
/// log of `later`, if `y` was elected, hold it too.
pub open spec fn target(c: Cluster, later: Term, y: NodeId, term: Term, n: int) -> bool {
    &&& c.nodes[y].state.current_term == later && c.nodes[y].role is Candidate ==> same_upto(
        c.nodes[y].log,
        c.leader_logs[term],
        n,
    )
    &&& c.elected.contains((later, y)) ==> same_upto(
        c.leader_logs[later],
        c.leader_logs[term],
        n,
    )
}

/// What a voter has held passes to whom it votes for, and what a leader
/// has held before its term stays in its log, unless a leader of a term in
/// between does not hold it.
pub open spec fn passed(c: Cluster) -> bool {
    &&& forall|later: Term, x: NodeId, y: NodeId, term: Term, n: int|
        #[trigger] c.network.contains(grant(later, x, y)) && term < later && #[trigger] held(
            c,
            term,
            x,
            n,
        ) && clear(c, term, n, later - 1) ==> target(c, later, y, term, n)
    &&& forall|later: Term, y: NodeId, term: Term, n: int|
        #[trigger] c.elected.contains((later, y)) && term < later && #[trigger] held(
            c,
            term,
            y,
            n,
        ) && clear(c, term, n, later - 1) ==> same_upto(
            c.leader_logs[later],
            c.leader_logs[term],
            n,
        )
}

/// What is held stays held.
pub proof fn lemma_held_stays(
    c: Cluster,
    d: Cluster,
    id: NodeId,
    cmd: CommandModel,
    term: Term,
    x: NodeId,
    n: int,
)
    requires
        next_by(c, d, id, cmd),
        records_grow(c, d),
        held(c, term, x, n),
    ensures
        held(d, term, x, n),
{
    lemma_moved(c, d, id, cmd);
    assert(c.leader_logs[term].is_prefix_of(d.leader_logs[term]));
    if acked(c, term, x, n) {
        let (to, index) = choose|to: NodeId, index: LogIndex|
            index >= n && #[trigger] c.network.contains(ack(term, x, to, index));
        assert(d.network.contains(ack(term, x, to, index)));
    }
}

/// What comes to be held in a step is held by the node that took the step,
/// which is then in that term and holds in its own log what it has come to
/// hold.
pub proof fn lemma_held_new(
    c: Cluster,
    d: Cluster,
    id: NodeId,
    cmd: CommandModel,
    term: Term,
    x: NodeId,
    n: int,
)
    requires
        log_invariant(c),
        log_invariant(d),
        shape_invariant(c),
        next_by(c, d, id, cmd),
        held(d, term, x, n),
        !held(c, term, x, n),
    ensures
        x == id,
        d.nodes[id].state.current_term == term,
        same_upto(d.nodes[id].log, d.leader_logs[term], n),
{
    lemma_moved(c, d, id, cmd);
    step_grows_records(c, d, id, cmd);
    let before = c.nodes[id];
    let o = step(before, cmd)->Ok_0;
    let after = d.nodes[id];
    step_answers_sound(before, cmd);
    if d.elected.contains((term, x)) {
        if c.elected.contains((term, x)) {
            // The log on record has grown under its leader.
            assert(c.leader_logs.dom().contains(term));
            assert(c.leader_logs[term].is_prefix_of(d.leader_logs[term]));
            if n <= c.leader_logs[term].len() {
                assert(c.leader_logs[term][n - 1] == d.leader_logs[term][n - 1]);
                assert(false);
            }
            assert(after.role is Leader && after.state.current_term == term);
            assert(d.elected.contains((term, id)));
        }
        assert(x == id);
        assert(d.leader_logs[term] == after.log);
    } else {
        let (to, index) = choose|to: NodeId, index: LogIndex|
            index >= n && #[trigger] d.network.contains(ack(term, x, to, index));
        let a = ack(term, x, to, index);
        if c.network.contains(a) {
            assert(c.leader_logs[term].is_prefix_of(d.leader_logs[term]));
            assert(c.leader_logs[term][n - 1] == d.leader_logs[term][n - 1]);
            assert(false);
        }
        let k = choose|k: int| 0 <= k < o.messages.len() && o.messages[k] == a;
        assert(sound_answer(before, cmd, o.node, o.messages[k]));
        assert(sound_message(before, o.node, o.messages[k]));
        match cmd {
            CommandModel::AppendEntries { term: sent, prev_index, prev_term, entries, .. } => {
                assert(!local(cmd));
                let r = choose|r: MessageModel|
                    #[trigger] c.network.contains(r) && addressed_to(r, id) && r.command == cmd;
                assert(carried(c, r));
                lemma_merged_shape(
                    c,
                    before.log,
                    c.leader_logs[term],
                    prev_index,
                    prev_term,
                    entries,
                );
                assert(d.leader_logs[term] == c.leader_logs[term]);
            },
            _ => {},
        }
    }
}

/// Whether a later leader holds what an earlier one made cannot change
/// once the earlier one has made it.
pub proof fn lemma_clear_stays(c: Cluster, d: Cluster, term: Term, n: int, upper: int, lower: int)
    requires
        shaped(c),
        shaped(d),
        records_grow(c, d),
        c.leader_logs.dom().contains(term),
        1 <= n <= c.leader_logs[term].len(),
        clear(d, term, n, upper),
        lower <= upper,
    ensures
        clear(c, term, n, lower),
{
    assert forall|later: Term|
        #[trigger] c.leader_logs.dom().contains(later) && term < later <= lower implies same_upto(
        c.leader_logs[later],
        c.leader_logs[term],
        n,
    ) by {
        lemma_same_upto_back(c, d, term, later, n);
    }
}

/// If a later leader holds now what an earlier one had made before the
/// step, it held it before the step.
pub proof fn lemma_same_upto_back(c: Cluster, d: Cluster, term: Term, later: Term, n: int)
    requires
        shaped(c),
        shaped(d),
        records_grow(c, d),
        c.leader_logs.dom().contains(term),
        c.leader_logs.dom().contains(later),
        term < later,
        1 <= n <= c.leader_logs[term].len(),
        same_upto(d.leader_logs[later], d.leader_logs[term], n),
    ensures
        same_upto(c.leader_logs[later], c.leader_logs[term], n),
{
    let old = c.leader_logs[later];
    let new = d.leader_logs[later];
    assert(d.leader_logs.dom().contains(later));
    assert(d.leader_logs.dom().contains(term));
    assert(old.is_prefix_of(new));
    assert(c.leader_logs[term].is_prefix_of(d.leader_logs[term]));
    if old.len() < n {
        let p = old.len() as int;
        assert(new[p] == d.leader_logs[term][p]);
        assert(d.leader_logs[term][p] == c.leader_logs[term][p]);
        assert(c.leader_logs[term][p].term <= term);
        assert(old.last() == old[p - 1]);
        assert(new[p - 1] == old[p - 1]);
        assert(new[p - 1].term <= new[p].term);
        assert(false);
    }
    assert forall|j: int| 0 <= j < n implies old[j] == c.leader_logs[term][j] by {
        assert(old[j] == new[j]);
        assert(c.leader_logs[term][j] == d.leader_logs[term][j]);
    }
}

/// If a later leader held before the step what an earlier one had made, it
/// holds it after.
pub proof fn lemma_same_upto_on(c: Cluster, d: Cluster, term: Term, later: Term, n: int)
    requires
        records_grow(c, d),
        c.leader_logs.dom().contains(term),
        c.leader_logs.dom().contains(later),
        same_upto(c.leader_logs[later], c.leader_logs[term], n),
    ensures
        same_upto(d.leader_logs[later], d.leader_logs[term], n),
{
    assert(c.leader_logs[later].is_prefix_of(d.leader_logs[later]));
    assert(c.leader_logs[term].is_prefix_of(d.leader_logs[term]));
    assert forall|j: int| 0 <= j < n implies d.leader_logs[later][j] == d.leader_logs[term][j] by {
        assert(c.leader_logs[later][j] == d.leader_logs[later][j]);
        assert(c.leader_logs[term][j] == d.leader_logs[term][j]);
    }
}

/// A log that is found at least as up to date as one that holds what the
/// leader of `term` made at index `n` holds it too, unless a leader of a
/// term in between does not.
pub proof fn lemma_dominance(
    c: Cluster,
    own: Seq<EntryModel>,
    other: Seq<EntryModel>,
    term: Term,
    n: int,
    later: Term,
    last_index: LogIndex,
)
    requires
        shaped(c),
        anchored(c, own),
        anchored(c, other),
        ordered(own),
        c.leader_logs.dom().contains(term),
        1 <= n,
        c.leader_logs[term][n - 1].term == term,
        same_upto(own, c.leader_logs[term], n),
        up_to_date(own, last_term(other), last_index),
        other.len() == last_index,
        last_term(other) < later,
        term < later,
        clear(c, term, n, later - 1),
    ensures
        same_upto(other, c.leader_logs[term], n),
{
    let whole = c.leader_logs[term];
    let last = own.len() - 1;
    assert(own[n - 1] == whole[n - 1]);
    assert(own[n - 1].term <= own[last].term);
    assert(own.last() == own[last]);
    let mine = last_term(own);
    let theirs = last_term(other);
    assert(other.len() > 0);
    let end = other.len() - 1;
    assert(other.last() == other[end]);
    if theirs == mine {
        assert(own.len() <= other.len());
        assert forall|j: int| 0 <= j < n implies other[j] == whole[j] by {
            assert(agrees(c, own, last, j));
            assert(agrees(c, other, end, j));
        }
    } else {
        assert(term < theirs);
        assert(agrees(c, other, end, end));
        assert(c.leader_logs.dom().contains(theirs));
        let between = c.leader_logs[theirs];
        assert(same_upto(between, whole, n));
        assert(between[n - 1] == whole[n - 1]);
        assert(between[end] == other[end]);
        if end < n - 1 {
            assert(between[end].term <= between[n - 1].term);
            assert(false);
        }
        assert forall|j: int| 0 <= j < n implies other[j] == whole[j] by {
            assert(agrees(c, other, end, j));
        }
    }
}

/// The last term of a log never goes down in a step, and a log that holds
/// the log of a leader up to an index still holds it after a step that
/// merged entries of a leader that holds it too.
pub proof fn lemma_step_keeps_prefix(
    c: Cluster,
    d: Cluster,
    id: NodeId,
    cmd: CommandModel,
    term: Term,
    n: int,
)
    requires
        log_invariant(c),
        log_invariant(d),
        shape_invariant(c),
        shaped(d),
        next_by(c, d, id, cmd),
        c.leader_logs.dom().contains(term),
        1 <= n,
        c.nodes[id].state.current_term >= term,
        same_upto(c.nodes[id].log, c.leader_logs[term], n),
        clear(d, term, n, last_term(d.nodes[id].log) as int),
    ensures
        same_upto(d.nodes[id].log, d.leader_logs[term], n),
{
    lemma_moved(c, d, id, cmd);
    step_grows_records(c, d, id, cmd);
    let before = c.nodes[id];
    let after = d.nodes[id];
    step_changes_log(before, cmd);
    let whole = c.leader_logs[term];
    assert(whole.is_prefix_of(d.leader_logs[term]));
    assert forall|j: int| 0 <= j < n implies whole[j] == d.leader_logs[term][j] by {}
    if after.log == before.log {
    } else if after.role is Leader && after.log.len() == before.log.len() + 1
        && before.log.is_prefix_of(after.log) {
        assert forall|j: int| 0 <= j < n implies after.log[j] == whole[j] by {
            assert(after.log[j] == before.log[j]);
        }
    } else {
        match cmd {
            CommandModel::AppendEntries { term: sent, prev_index, prev_term, entries, .. } => {
                assert(!local(cmd));
                let r = choose|r: MessageModel|
                    #[trigger] c.network.contains(r) && addressed_to(r, id) && r.command == cmd;
                assert(carried(c, r));
                assert(closed_run(r));
                let theirs = c.leader_logs[sent];
                lemma_merged_shape(c, before.log, theirs, prev_index, prev_term, entries);
                let k = first_new(before.log, prev_index, entries, 0);
                crate::follower::lemma_first_new_bounds(before.log, prev_index, entries, 0);
                assert(after.log.len() == prev_index + entries.len());
                assert(after.log.last() == after.log[after.log.len() - 1]);
                assert(after.log[after.log.len() - 1] == theirs[after.log.len() - 1]);
                assert(entries[entries.len() - 1] == theirs[prev_index + (entries.len() - 1)]);
                assert(entries.last() == entries[entries.len() - 1]);
                assert(last_term(after.log) == sent);
                assert(same_upto(theirs, whole, n)) by {
                    if sent > term {
                        assert(d.leader_logs.dom().contains(sent));
                        assert(same_upto(d.leader_logs[sent], d.leader_logs[term], n));
                        lemma_same_upto_back(c, d, term, sent, n);
                    }
                }
                if prev_index + k < n {
                    assert(before.log[prev_index + k] == whole[prev_index + k]);
                    assert(theirs[prev_index + k] == whole[prev_index + k]);
                    assert(entries[k] == theirs[prev_index + k]);
                    assert(false);
                }
                assert forall|j: int| 0 <= j < n implies after.log[j] == whole[j] by {
                    assert(after.log[j] == before.log[j]);
                }
            },
            _ => {},
        }
    }
}

/// The last term of the log of a node never goes down in a step.
pub proof fn lemma_last_term_grows(c: Cluster, d: Cluster, id: NodeId, cmd: CommandModel)
    requires
        log_invariant(c),
        log_invariant(d),
        shape_invariant(c),
        shaped(d),
        next_by(c, d, id, cmd),
    ensures
        last_term(c.nodes[id].log) <= last_term(d.nodes[id].log),
{
    lemma_moved(c, d, id, cmd);
    let before = c.nodes[id];
    let after = d.nodes[id];
    step_changes_log(before, cmd);
    if before.log.len() > 0 {
        assert(before.log.last() == before.log[before.log.len() - 1]);
    }
    if after.log == before.log {
    } else if after.role is Leader && after.log.len() == before.log.len() + 1
        && after.log.last().term == after.state.current_term {
    } else {
        match cmd {
            CommandModel::AppendEntries { term: sent, prev_index, prev_term, entries, .. } => {
                assert(!local(cmd));
                let r = choose|r: MessageModel|
                    #[trigger] c.network.contains(r) && addressed_to(r, id) && r.command == cmd;
                assert(carried(c, r));
                assert(closed_run(r));
                let theirs = c.leader_logs[sent];
                lemma_merged_shape(c, before.log, theirs, prev_index, prev_term, entries);
                assert(after.log.last() == after.log[after.log.len() - 1]);
                assert(after.log[after.log.len() - 1] == theirs[after.log.len() - 1]);
                assert(entries[entries.len() - 1] == theirs[prev_index + (entries.len() - 1)]);
                assert(entries.last() == entries[entries.len() - 1]);
            },
            _ => {},
        }
    }
}

/// A step keeps what was held kept.
pub proof fn step_keeps_kept(c: Cluster, d: Cluster, id: NodeId, cmd: CommandModel)
    requires
        log_invariant(c),
        log_invariant(d),
        shape_invariant(c),
        shape_invariant(d),
        kept(c),
        next_by(c, d, id, cmd),
    ensures
        kept(d),
{
    lemma_moved(c, d, id, cmd);
    step_grows_records(c, d, id, cmd);
    assert forall|x: NodeId, term: Term, n: int|
        d.nodes.dom().contains(x) && #[trigger] held(d, term, x, n) && clear(
            d,
            term,
            n,
            last_term(d.nodes[x].log) as int,
        ) implies same_upto(d.nodes[x].log, d.leader_logs[term], n) by {
        if !held(c, term, x, n) {
            lemma_held_new(c, d, id, cmd, term, x, n);
        } else {
            lemma_holder_term(c, term, x, n);
            if x == id {
                lemma_last_term_grows(c, d, id, cmd);
            }
            lemma_clear_stays(
                c,
                d,
                term,
                n,
                last_term(d.nodes[x].log) as int,
                last_term(c.nodes[x].log) as int,
            );
            assert(same_upto(c.nodes[x].log, c.leader_logs[term], n));
            if x == id {
                lemma_step_keeps_prefix(c, d, id, cmd, term, n);
            } else {
                assert(c.leader_logs[term].is_prefix_of(d.leader_logs[term]));
            }
        }
    }
}

/// Who has held something of a leader is at least in that leader's term.
pub proof fn lemma_holder_term(c: Cluster, term: Term, x: NodeId, n: int)
    requires
        election_invariant(c),
        attributed(c),
        c.nodes.dom().contains(x),
        held(c, term, x, n),
    ensures
        c.nodes[x].state.current_term >= term,
{
    if !c.elected.contains((term, x)) {
        let (to, index) = choose|to: NodeId, index: LogIndex|
            index >= n && #[trigger] c.network.contains(ack(term, x, to, index));
        assert(c.network.contains(ack(term, x, to, index)));
    }
}

/// A step keeps what was held passed on.
pub proof fn step_keeps_passed(c: Cluster, d: Cluster, id: NodeId, cmd: CommandModel)
    requires
        log_invariant(c),
        log_invariant(d),
        shape_invariant(c),
        shape_invariant(d),
        kept(c),
        passed(c),
        next_by(c, d, id, cmd),
    ensures
        passed(d),
{
    lemma_moved(c, d, id, cmd);
    step_grows_records(c, d, id, cmd);
    let before = c.nodes[id];
    let o = step(before, cmd)->Ok_0;
    let after = d.nodes[id];
    leader_from(before, cmd);
    candidate_from(before, cmd);
    if before.role is Candidate {
        candidate_keeps_log(before, cmd);
    }
    step_grants_sound(before, cmd);
    assert forall|later: Term, y: NodeId, term: Term, n: int|
        #[trigger] d.elected.contains((later, y)) && term < later && #[trigger] held(
            d,
            term,
            y,
            n,
        ) && clear(d, term, n, later - 1) implies same_upto(
        d.leader_logs[later],
        d.leader_logs[term],
        n,
    ) by {
        if !held(c, term, y, n) {
            lemma_held_new(c, d, id, cmd, term, y, n);
            assert(false);
        }
        lemma_clear_stays(c, d, term, n, later - 1, later - 1);
        if c.elected.contains((later, y)) {
            lemma_same_upto_on(c, d, term, later, n);
        } else {
            lemma_new_leader_holds(c, d, id, cmd, term, n);
        }
    }
    assert forall|later: Term, x: NodeId, y: NodeId, term: Term, n: int|
        #[trigger] d.network.contains(grant(later, x, y)) && term < later && #[trigger] held(
            d,
            term,
            x,
            n,
        ) && clear(d, term, n, later - 1) implies target(d, later, y, term, n) by {
        assert(d.nodes[x].state.current_term >= later);
        if !held(c, term, x, n) {
            lemma_held_new(c, d, id, cmd, term, x, n);
            assert(false);
        }
        lemma_clear_stays(c, d, term, n, later - 1, later - 1);
        assert(c.leader_logs[term].is_prefix_of(d.leader_logs[term]));
        if c.network.contains(grant(later, x, y)) {
            assert(target(c, later, y, term, n));
            if d.nodes[y].state.current_term == later && d.nodes[y].role is Candidate {
                assert(c.nodes[y].state.current_term >= later);
                assert(same_upto(d.nodes[y].log, d.leader_logs[term], n));
            }
            if d.elected.contains((later, y)) {
                if c.elected.contains((later, y)) {
                    lemma_same_upto_on(c, d, term, later, n);
                } else {
                    assert(y == id);
                    assert(c.nodes[y].state.current_term >= later);
                    assert(before.log.is_prefix_of(after.log));
                    assert(d.leader_logs[later] == after.log);
                    assert forall|j: int| 0 <= j < n implies after.log[j] == d.leader_logs[term][j] by {
                        assert(after.log[j] == before.log[j]);
                    }
                }
            }
        } else {
            lemma_new_grant_passes(c, d, id, cmd, later, x, y, term, n);
        }
    }
}

/// Who comes to lead holds in its log what it has held before.
pub proof fn lemma_new_leader_holds(
    c: Cluster,
    d: Cluster,
    id: NodeId,
    cmd: CommandModel,
    term: Term,
    n: int,
)
    requires
        log_invariant(c),
        log_invariant(d),
        shape_invariant(c),
        shape_invariant(d),
        kept(c),
        next_by(c, d, id, cmd),
        d.nodes[id].role is Leader,
        !c.elected.contains((d.nodes[id].state.current_term, id)),
        term < d.nodes[id].state.current_term,
        held(c, term, id, n),
        clear(c, term, n, d.nodes[id].state.current_term - 1),
    ensures
        same_upto(d.leader_logs[d.nodes[id].state.current_term], d.leader_logs[term], n),
{
    lemma_moved(c, d, id, cmd);
    step_grows_records(c, d, id, cmd);
    let before = c.nodes[id];
    let after = d.nodes[id];
    let later = after.state.current_term;
    leader_from(before, cmd);
    assert(before.log.is_prefix_of(after.log));
    assert(capped(before.log, later - 1));
    if before.log.len() > 0 {
        assert(before.log.last() == before.log[before.log.len() - 1]);
    }
    assert(last_term(before.log) <= later - 1);
    assert(clear(c, term, n, last_term(before.log) as int));
    assert(same_upto(before.log, c.leader_logs[term], n));
    assert(c.leader_logs[term].is_prefix_of(d.leader_logs[term]));
    assert(d.leader_logs[later] == after.log);
    assert forall|j: int| 0 <= j < n implies after.log[j] == d.leader_logs[term][j] by {
        assert(after.log[j] == before.log[j]);
        assert(c.leader_logs[term][j] == d.leader_logs[term][j]);
    }
}

/// What the voter has held passes on with a grant given in this step.
pub proof fn lemma_new_grant_passes(
    c: Cluster,
    d: Cluster,
    id: NodeId,
    cmd: CommandModel,
    later: Term,
    x: NodeId,
    y: NodeId,
    term: Term,
    n: int,
)
    requires
        log_invariant(c),
        log_invariant(d),
        shape_invariant(c),
        shape_invariant(d),
        kept(c),
        next_by(c, d, id, cmd),
        d.network.contains(grant(later, x, y)),
        !c.network.contains(grant(later, x, y)),
        term < later,
        held(c, term, x, n),
        clear(c, term, n, later - 1),
    ensures
        target(d, later, y, term, n),
{
    lemma_moved(c, d, id, cmd);
    step_grows_records(c, d, id, cmd);
    let before = c.nodes[id];
    let o = step(before, cmd)->Ok_0;
    let after = d.nodes[id];
    step_grants_sound(before, cmd);
    let g = grant(later, x, y);
    let k = choose|k: int| 0 <= k < o.messages.len() && o.messages[k] == g;
    assert(sound_grant(before, cmd, o.node, o.messages[k]));
    assert(sound_message(before, o.node, o.messages[k]));
    assert(x == id);
    assert(!local(cmd));
    let r = choose|r: MessageModel|
        #[trigger] c.network.contains(r) && addressed_to(r, id) && r.command == cmd;
    assert(described(c, r));
    let whole = c.leader_logs[term];
    assert(whole.is_prefix_of(d.leader_logs[term]));
    match cmd {
        CommandModel::VoteRequest { term: asked, candidate_id, last_term: theirs, last_index } => {
            assert(candidate_id == y);
            assert(asked == later);
            if before.log.len() > 0 {
                assert(before.log.last() == before.log[before.log.len() - 1]);
            }
            assert(last_term(before.log) <= theirs);
            assert(clear(c, term, n, last_term(before.log) as int));
            assert(same_upto(before.log, whole, n));
            if y != id {
                if d.nodes[y].state.current_term == later && d.nodes[y].role is Candidate {
                    let other = c.nodes[y].log;
                    lemma_dominance(c, before.log, other, term, n, later, last_index);
                    assert forall|j: int| 0 <= j < n implies other[j] == d.leader_logs[term][j] by {}
                }
                if d.elected.contains((later, y)) {
                    assert(c.elected.contains((later, y)));
                    let full = c.leader_logs[later];
                    let other = full.subrange(0, last_index as int);
                    assert(anchored(c, other)) by {
                        crate::matching::lemma_anchored_prefix(c, full, other);
                    }
                    lemma_dominance(c, before.log, other, term, n, later, last_index);
                    assert(full.is_prefix_of(d.leader_logs[later]));
                    assert forall|j: int| 0 <= j < n implies d.leader_logs[later][j]
                        == d.leader_logs[term][j] by {
                        assert(other[j] == full[j]);
                    }
                }
            }
        },
        _ => {},
    }
}

/// The members that have held what the leader of `term` made at index
/// `n`.
pub open spec fn holders(c: Cluster, term: Term, n: int) -> Set<NodeId> {
    Set::new(|x: NodeId| c.nodes.dom().contains(x) && held(c, term, x, n))
}

/// Whether a quorum has held what the leader of `term` made at index `n`.
pub open spec fn sealed(c: Cluster, term: Term, n: int) -> bool {
    holders(c, term, n).len() >= quorum(c.nodes.dom().len())
}

/// Whether `log` is known to hold, up to index `m`, what a quorum has held
/// of a leader of a term no higher than `upper`.
pub open spec fn settled(c: Cluster, upper: Term, log: Seq<EntryModel>, m: int) -> bool {
    m == 0 || exists|term: Term, n: int|
        term <= upper && n >= m && #[trigger] sealed(c, term, n) && c.leader_logs.dom().contains(
            term,
        ) && same_upto(log, c.leader_logs[term], m)
}

/// What a leader believes of a peer, the peer has said; and what a node
/// or an append request takes to be committed is settled.
pub open spec fn grounded(c: Cluster) -> bool {
    &&& forall|id: NodeId, i: int|
        c.nodes.dom().contains(id) && c.nodes[id].role is Leader && 0 <= i
            < c.nodes[id].peers.len() && (#[trigger] c.nodes[id].role->Leader_progress[i]).match_index
            >= 1 ==> acked(
            c,
            c.nodes[id].state.current_term,
            c.nodes[id].role->Leader_progress[i].id,
            c.nodes[id].role->Leader_progress[i].match_index as int,
        )
    &&& forall|id: NodeId|
        c.nodes.dom().contains(id) ==> settled(
            c,
            (#[trigger] c.nodes[id]).state.current_term,
            c.nodes[id].log,
            c.nodes[id].state.commit_index as int,
        )
    &&& forall|m: MessageModel| #[trigger]
        c.network.contains(m) ==> (m.command matches CommandModel::AppendEntries {
            term,
            leader_commit,
            ..
        } ==> c.leader_logs.dom().contains(term) && settled(
            c,
            term,
            c.leader_logs[term],
            leader_commit as int,
        ))
}

/// What holds of every cluster a run can reach.
pub open spec fn durable_invariant(c: Cluster) -> bool {
    &&& log_invariant(c)
    &&& shape_invariant(c)
    &&& kept(c)
    &&& passed(c)
    &&& grounded(c)
}

/// What a quorum has held, a quorum has held after a step.
pub proof fn lemma_sealed_stays(
    c: Cluster,
    d: Cluster,
    id: NodeId,
    cmd: CommandModel,
    term: Term,
    n: int,
)
    requires
        election_invariant(c),
        next_by(c, d, id, cmd),
        records_grow(c, d),
        sealed(c, term, n),
    ensures
        sealed(d, term, n),
{
    lemma_moved(c, d, id, cmd);
    assert(holders(c, term, n).subset_of(holders(d, term, n))) by {
        assert forall|x: NodeId| holders(c, term, n).contains(x) implies holders(
            d,
            term,
            n,
        ).contains(x) by {
            lemma_held_stays(c, d, id, cmd, term, x, n);
        }
    }
    assert(holders(d, term, n).subset_of(d.nodes.dom()));
    lemma_len_subset(holders(d, term, n), d.nodes.dom());
    lemma_len_subset(holders(c, term, n), holders(d, term, n));
}

/// What is settled stays settled for a log that keeps its entries up to
/// there, under a bound that does not go down.
pub proof fn lemma_settled_stays(
    c: Cluster,
    d: Cluster,
    id: NodeId,
    cmd: CommandModel,
    upper: Term,
    log: Seq<EntryModel>,
    m: int,
    above: Term,
    after: Seq<EntryModel>,
    less: int,
)
    requires
        election_invariant(c),
        next_by(c, d, id, cmd),
        records_grow(c, d),
        settled(c, upper, log, m),
        upper <= above,
        0 <= less <= m,
        less <= after.len(),
        forall|j: int| 0 <= j < less ==> after[j] == log[j],
    ensures
        settled(d, above, after, less),
{
    if less > 0 {
        let (term, n) = choose|term: Term, n: int|
            term <= upper && n >= m && #[trigger] sealed(c, term, n) && c.leader_logs.dom().contains(
                term,
            ) && same_upto(log, c.leader_logs[term], m);
        lemma_sealed_stays(c, d, id, cmd, term, n);
        assert(c.leader_logs[term].is_prefix_of(d.leader_logs[term]));
        assert forall|j: int| 0 <= j < less implies after[j] == d.leader_logs[term][j] by {
            assert(log[j] == c.leader_logs[term][j]);
        }
        assert(sealed(d, term, n) && same_upto(after, d.leader_logs[term], less));
    }
}

/// What a leader raises its commit index to is settled.
pub proof fn lemma_leader_commit_settled(c: Cluster, id: NodeId)
    requires
        log_invariant(c),
        shape_invariant(c),
        c.nodes.dom().contains(id),
        c.nodes[id].role is Leader,
        1 <= c.nodes[id].state.commit_index <= c.nodes[id].log.len(),
        c.nodes[id].log[c.nodes[id].state.commit_index - 1].term == c.nodes[id].state.current_term,
        crate::progress::acks(c.nodes[id].role->Leader_progress, c.nodes[id].state.commit_index)
            >= quorum(c.nodes[id].role->Leader_progress.len()),
        forall|i: int|
            0 <= i < c.nodes[id].peers.len() && (#[trigger] c.nodes[id].role->Leader_progress[i]).match_index
                >= 1 ==> acked(
                c,
                c.nodes[id].state.current_term,
                c.nodes[id].role->Leader_progress[i].id,
                c.nodes[id].role->Leader_progress[i].match_index as int,
            ),
    ensures
        settled(
            c,
            c.nodes[id].state.current_term,
            c.nodes[id].log,
            c.nodes[id].state.commit_index as int,
        ),
{
    let node = c.nodes[id];
    let term = node.state.current_term;
    let n = node.state.commit_index;
    let p = node.role->Leader_progress;
    assert(crate::node::node_wf(node));
    assert(c.leader_logs[term] == node.log);
    assert(c.elected.contains((term, id)));
    lemma_cluster_size(c, id);
    assert forall|i: int, j: int| 0 <= i < j < p.len() implies (#[trigger] p[i]).id != (
    #[trigger] p[j]).id by {
        assert(node.peers.contains(node.peers[i]));
        if j < node.peers.len() {
        }
    }
    lemma_count_believers(p, n, p.len() as int);
    let b = believers(p, n, p.len() as int);
    assert(b.subset_of(holders(c, term, n as int))) by {
        assert forall|x: NodeId| b.contains(x) implies holders(c, term, n as int).contains(x) by {
            let i = choose|i: int|
                0 <= i < p.len() && i < p.len() && #[trigger] p[i].id == x && p[i].match_index
                    >= n;
            if i < node.peers.len() {
                assert(node.peers.contains(node.peers[i]));
                assert(node.peers.to_set().contains(x));
                let (to, index) = choose|to: NodeId, index: LogIndex|
                    index >= p[i].match_index as int && #[trigger] c.network.contains(
                        ack(term, x, to, index),
                    );
                assert(c.network.contains(ack(term, x, to, index)));
                assert(acked(c, term, x, n as int));
            }
        }
    }
    assert(holders(c, term, n as int).subset_of(c.nodes.dom()));
    lemma_len_subset(holders(c, term, n as int), c.nodes.dom());
    lemma_len_subset(b, holders(c, term, n as int));
    assert(sealed(c, term, n as int));
    assert(same_upto(node.log, c.leader_logs[term], n as int));
}

/// A step keeps beliefs and commit indices grounded.
pub proof fn step_keeps_grounded(c: Cluster, d: Cluster, id: NodeId, cmd: CommandModel)
    requires
        log_invariant(c),
        log_invariant(d),
        shape_invariant(c),
        shape_invariant(d),
        grounded(c),
        next_by(c, d, id, cmd),
    ensures
        grounded(d),
{
    lemma_moved(c, d, id, cmd);
    step_grows_records(c, d, id, cmd);
    let before = c.nodes[id];
    let o = step(before, cmd)->Ok_0;
    let after = d.nodes[id];
    assert(crate::node::node_wf(before));
    step_keeps_identity(before, cmd);
    step_beliefs_backed(before, cmd);
    step_changes_commit(before, cmd);
    step_changes_log(before, cmd);
    step_appends_sound(before, cmd);
    // What a leader believes of a peer, the peer has said.
    assert forall|j: NodeId, i: int|
        d.nodes.dom().contains(j) && d.nodes[j].role is Leader && 0 <= i < d.nodes[j].peers.len()
            && (#[trigger] d.nodes[j].role->Leader_progress[i]).match_index >= 1 implies acked(
        d,
        d.nodes[j].state.current_term,
        d.nodes[j].role->Leader_progress[i].id,
        d.nodes[j].role->Leader_progress[i].match_index as int,
    ) by {
        let e = d.nodes[j].role->Leader_progress[i];
        let term = d.nodes[j].state.current_term;
        if j != id || (before.role is Leader && before.state.current_term == term
            && before.role->Leader_progress[i].match_index == e.match_index) {
            let old = c.nodes[j].role->Leader_progress[i];
            assert(crate::node::node_wf(c.nodes[j]));
            assert(crate::node::node_wf(d.nodes[j]));
            assert(old.id == e.id);
            assert(acked(c, term, old.id, old.match_index as int));
            let (to, index) = choose|to: NodeId, index: LogIndex|
                index >= old.match_index as int && #[trigger] c.network.contains(
                    ack(term, old.id, to, index),
                );
            assert(d.network.contains(ack(term, e.id, to, index)));
        } else {
            assert(belief_backed(before, cmd, after, i));
            assert(!local(cmd));
            let r = choose|r: MessageModel|
                #[trigger] c.network.contains(r) && addressed_to(r, id) && r.command == cmd;
            assert(r == ack(term, e.id, id, e.match_index));
            assert(d.network.contains(ack(term, e.id, id, e.match_index)));
        }
    }
    // What the node that took the step takes to be committed is settled.
    assert(settled(d, after.state.current_term, after.log, after.state.commit_index as int)) by {
        if after.state.commit_index > before.state.commit_index && before.role is Leader
            && after.role is Leader && after.log == before.log {
            lemma_leader_commit_settled(d, id);
        } else if after.state.commit_index > before.state.commit_index {
            match cmd {
                CommandModel::AppendEntries {
                    term,
                    prev_index,
                    prev_term,
                    entries,
                    leader_commit,
                    ..
                } => {
                    assert(!local(cmd));
                    let r = choose|r: MessageModel|
                        #[trigger] c.network.contains(r) && addressed_to(r, id) && r.command
                            == cmd;
                    assert(carried(c, r));
                    assert(closed_run(r));
                    let whole = c.leader_logs[term];
                    lemma_merged_shape(c, before.log, whole, prev_index, prev_term, entries);
                    assert(after.state.commit_index == leader_commit);
                    lemma_settled_stays(
                        c,
                        d,
                        id,
                        cmd,
                        term,
                        whole,
                        leader_commit as int,
                        term,
                        after.log,
                        leader_commit as int,
                    );
                },
                _ => {},
            }
        } else {
            assert(after.state.commit_index == before.state.commit_index);
            let m = before.state.commit_index as int;
            assert(m <= after.log.len() && (forall|j: int|
                0 <= j < m ==> after.log[j] == before.log[j])) by {
                if after.log == before.log {
                } else if after.role is Leader {
                    assert(before.log.is_prefix_of(after.log));
                } else {
                    match cmd {
                        CommandModel::AppendEntries { term, prev_index, prev_term, entries, .. } => {
                            assert(!local(cmd));
                            let r = choose|r: MessageModel|
                                #[trigger] c.network.contains(r) && addressed_to(r, id)
                                    && r.command == cmd;
                            assert(carried(c, r));
                            let whole = c.leader_logs[term];
                            lemma_merged_shape(
                                c,
                                before.log,
                                whole,
                                prev_index,
                                prev_term,
                                entries,
                            );
                        },
                        _ => {},
                    }
                }
            }
            lemma_settled_stays(
                c,
                d,
                id,
                cmd,
                before.state.current_term,
                before.log,
                m,
                after.state.current_term,
                after.log,
                m,
            );
        }
    }
    assert forall|j: NodeId| d.nodes.dom().contains(j) implies settled(
        d,
        (#[trigger] d.nodes[j]).state.current_term,
        d.nodes[j].log,
        d.nodes[j].state.commit_index as int,
    ) by {
        if j != id {
            let node = c.nodes[j];
            assert(crate::node::node_wf(node));
            lemma_settled_stays(
                c,
                d,
                id,
                cmd,
                node.state.current_term,
                node.log,
                node.state.commit_index as int,
                node.state.current_term,
                node.log,
                node.state.commit_index as int,
            );
        }
    }
    // What an append request takes to be committed is settled.
    assert forall|m: MessageModel| #[trigger] d.network.contains(m) implies (m.command matches CommandModel::AppendEntries {
        term,
        leader_commit,
        ..
    } ==> d.leader_logs.dom().contains(term) && settled(
        d,
        term,
        d.leader_logs[term],
        leader_commit as int,
    )) by {
        match m.command {
            CommandModel::AppendEntries { term, leader_commit, prev_index, entries, .. } => {
                if c.network.contains(m) {
                    assert(carried(c, m));
                    assert(closed_run(m));
                    let whole = c.leader_logs[term];
                    assert(whole.is_prefix_of(d.leader_logs[term]));
                    lemma_settled_stays(
                        c,
                        d,
                        id,
                        cmd,
                        term,
                        whole,
                        leader_commit as int,
                        term,
                        d.leader_logs[term],
                        leader_commit as int,
                    );
                } else {
                    let k = choose|k: int| 0 <= k < o.messages.len() && o.messages[k] == m;
                    assert(sound_append(o.node, o.messages[k]));
                    assert(d.leader_logs[term] == after.log);
                    lemma_settled_less(
                        d,
                        term,
                        after.log,
                        after.state.commit_index as int,
                        leader_commit as int,
                    );
                }
            },
            _ => {},
        }
    }
}

/// What is settled up to an index is settled up to every lower one.
pub proof fn lemma_settled_less(c: Cluster, upper: Term, log: Seq<EntryModel>, m: int, less: int)
    requires
        settled(c, upper, log, m),
        0 <= less <= m,
    ensures
        settled(c, upper, log, less),
{
    if less > 0 {
        let (term, n) = choose|term: Term, n: int|
            term <= upper && n >= m && #[trigger] sealed(c, term, n) && c.leader_logs.dom().contains(
                term,
            ) && same_upto(log, c.leader_logs[term], m);
        assert(sealed(c, term, n) && same_upto(log, c.leader_logs[term], less));
    }
}

/// Leader completeness: what a quorum has held of the leader of a term,
/// the leader of every later term holds in its log.
pub proof fn leaders_complete(c: Cluster, term: Term, n: int, later: Term)
    requires
        durable_invariant(c),
        sealed(c, term, n),
        c.leader_logs.dom().contains(later),
        term < later,
    ensures
        same_upto(c.leader_logs[later], c.leader_logs[term], n),
    decreases later,
{
    assert forall|mid: Term|
        #[trigger] c.leader_logs.dom().contains(mid) && term < mid <= later - 1 implies same_upto(
        c.leader_logs[mid],
        c.leader_logs[term],
        n,
    ) by {
        leaders_complete(c, term, n, mid);
    }
    assert(clear(c, term, n, later - 1));
    let leader = choose|leader: NodeId| #[trigger] c.elected.contains((later, leader));
    let backing = supporters(c, later, leader);
    let holding = holders(c, term, n);
    assert(backing.subset_of(c.nodes.dom()));
    assert(holding.subset_of(c.nodes.dom()));
    let p = lemma_quorums_meet(backing, holding, c.nodes.dom());
    assert(held(c, term, p, n));
    if p != leader {
        assert(c.network.contains(grant(later, p, leader)));
        assert(target(c, later, leader, term, n));
    }
}

/// A step keeps what holds of every reachable cluster.
pub proof fn step_keeps_durable_invariant(c: Cluster, d: Cluster)
    requires
        durable_invariant(c),
        next(c, d),
    ensures
        durable_invariant(d),
{
    let (id, cmd) = choose|id: NodeId, cmd: CommandModel| next_by(c, d, id, cmd);
    step_keeps_election_invariant(c, d);
    step_keeps_matching(c, d, id, cmd);
    step_keeps_shaped(c, d, id, cmd);
    step_keeps_attributed(c, d, id, cmd);
    step_keeps_requested(c, d, id, cmd);
    step_keeps_kept(c, d, id, cmd);
    step_keeps_passed(c, d, id, cmd);
    step_keeps_grounded(c, d, id, cmd);
}

/// Every cluster of a run has what holds of every reachable cluster.
pub proof fn run_keeps_durable_invariant(trace: Seq<Cluster>, k: int)
    requires
        execution(trace),
        0 <= k < trace.len(),
    ensures
        durable_invariant(trace[k]),
    decreases k,
{
    run_keeps_log_invariant(trace, k);
    if k == 0 {
        let c = trace[0];
        assert(init(c));
        assert forall|id: NodeId| c.nodes.dom().contains(id) implies {
            &&& (#[trigger] c.nodes[id]).log.len() == 0
            &&& c.nodes[id].role is Follower
            &&& c.nodes[id].state.commit_index == 0
        } by {
            assert(starts(c, id));
        }
        assert forall|x: NodeId, term: Term, n: int| !#[trigger] held(c, term, x, n) by {}
    } else {
        run_keeps_durable_invariant(trace, k - 1);
        assert(next(trace[k - 1], trace[k - 1 + 1]));
        step_keeps_durable_invariant(trace[k - 1], trace[k]);
    }
}

/// What is settled at one point of a run is settled at every later point.
pub proof fn run_keeps_settled(
    trace: Seq<Cluster>,
    i: int,
    j: int,
    upper: Term,
    log: Seq<EntryModel>,
    m: int,
)
    requires
        execution(trace),
        0 <= i <= j < trace.len(),
        settled(trace[i], upper, log, m),
        0 <= m <= log.len(),
    ensures
        settled(trace[j], upper, log, m),
    decreases j - i,
{
    if i < j {
        run_keeps_settled(trace, i, j - 1, upper, log, m);
        run_keeps_durable_invariant(trace, j - 1);
        run_keeps_durable_invariant(trace, j);
        let c = trace[j - 1];
        let d = trace[j];
        assert(next(trace[j - 1], trace[j - 1 + 1]));
        let (id, cmd) = choose|id: NodeId, cmd: CommandModel| next_by(c, d, id, cmd);
        step_grows_records(c, d, id, cmd);
        lemma_settled_stays(c, d, id, cmd, upper, log, m, upper, log, m);
    }
}

/// Leader completeness along a run: at any point of a run, what a quorum
/// has held of the log of the leader of a term is in the log on record of
/// the leader of every later term.
pub proof fn leader_completeness(trace: Seq<Cluster>, k: int, term: Term, n: int, later: Term)
    requires
        execution(trace),
        0 <= k < trace.len(),
        sealed(trace[k], term, n),
        trace[k].leader_logs.dom().contains(later),
        term < later,
    ensures
        same_upto(trace[k].leader_logs[later], trace[k].leader_logs[term], n),
{
    run_keeps_durable_invariant(trace, k);
    leaders_complete(trace[k], term, n, later);
}

/// Commit durability: once a node knows an index to be committed, the
/// leader of every term that is at least the term the node was in then
/// holds, at that index, the entry the node held there. The restriction to
/// such terms is needed: a node that stood for an earlier term may still
/// be elected in it after the commit, on votes given before.
pub proof fn commit_durability(
    trace: Seq<Cluster>,
    i: int,
    j: int,
    a: NodeId,
    leader: NodeId,
    index: int,
)
    requires
        execution(trace),
        0 <= i <= j < trace.len(),
        trace[i].nodes.dom().contains(a),
        1 <= index <= trace[i].nodes[a].state.commit_index,
        trace[j].nodes.dom().contains(leader),
        trace[j].nodes[leader].role is Leader,
        trace[j].nodes[leader].state.current_term >= trace[i].nodes[a].state.current_term,
    ensures
        index <= trace[j].nodes[leader].log.len(),
        index <= trace[i].nodes[a].log.len(),
        trace[j].nodes[leader].log[index - 1] == trace[i].nodes[a].log[index - 1],
{
    run_keeps_durable_invariant(trace, i);
    run_keeps_durable_invariant(trace, j);
    let c = trace[i];
    let d = trace[j];
    let node = c.nodes[a];
    let m = node.state.commit_index as int;
    assert(crate::node::node_wf(node));
    assert(settled(c, node.state.current_term, node.log, m));
    run_keeps_settled(trace, i, j, node.state.current_term, node.log, m);
    let (term, n) = choose|term: Term, n: int|
        term <= node.state.current_term && n >= m && #[trigger] sealed(d, term, n)
            && d.leader_logs.dom().contains(term) && same_upto(node.log, d.leader_logs[term], m);
    let later = d.nodes[leader].state.current_term;
    assert(d.leader_logs[later] == d.nodes[leader].log);
    assert(d.elected.contains((later, leader)));
    assert(d.leader_logs.dom().contains(later));
    if later > term {
        leaders_complete(d, term, n, later);
    }
    assert(d.leader_logs[later][index - 1] == d.leader_logs[term][index - 1]);
}

} // verus!
