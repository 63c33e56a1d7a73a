use vstd::prelude::*;
use crate::cluster::{addressed_to, execution, init, local, next, next_by, Cluster};
use crate::follower::{first_new, lemma_first_new_bounds, lemma_first_new_held, merged};
use crate::invariants::{
    leader_appends_only, sound_append, step_appends_sound, step_changes_log,
};
use crate::node::step;
use crate::raft::{CommandModel, EntryModel, NodeId, Term};
use crate::rpc::MessageModel;
use crate::safety::{election_invariant, lemma_moved, run_keeps_election_invariant};

verus! {

/// Whether the leader of the term of entry `i` of `log` holds, at position
/// `j`, what `log` holds there.
pub open spec fn agrees(c: Cluster, log: Seq<EntryModel>, i: int, j: int) -> bool {
    let term = log[i].term;
    &&& c.leader_logs.dom().contains(term)
    &&& i < c.leader_logs[term].len()
    &&& c.leader_logs[term][j] == log[j]
}

/// Up to each of its entries, `log` is the log of the leader of the term of
/// that entry.
pub open spec fn anchored(c: Cluster, log: Seq<EntryModel>) -> bool {
    forall|i: int, j: int| 0 <= j <= i < log.len() ==> #[trigger] agrees(c, log, i, j)
}

/// The logs of the leaders are on record: for exactly the terms that had a
/// leader, and whoever leads holds the log on record for its term.
pub open spec fn logs_recorded(c: Cluster) -> bool {
    &&& forall|term: Term, id: NodeId| #[trigger]
        c.elected.contains((term, id)) ==> c.leader_logs.dom().contains(term)
    &&& forall|term: Term| #[trigger]
        c.leader_logs.dom().contains(term) ==> exists|id: NodeId| #[trigger]
            c.elected.contains((term, id))
    &&& forall|id: NodeId|
        c.nodes.dom().contains(id) && (#[trigger] c.nodes[id]).role is Leader
            ==> c.leader_logs[c.nodes[id].state.current_term] == c.nodes[id].log
}

/// The log of every node and the log on record of every leader is
/// anchored.
pub open spec fn logs_anchored(c: Cluster) -> bool {
    &&& forall|id: NodeId| c.nodes.dom().contains(id) ==> anchored(c, (#[trigger] c.nodes[id]).log)
    &&& forall|term: Term| #[trigger]
        c.leader_logs.dom().contains(term) ==> anchored(c, c.leader_logs[term])
}

/// Whether what message `m` carries, if it is an append request, is a run
/// of the log of the leader of its term, with `prev_term` the term of that
/// leader's entry before the run.
pub open spec fn carried(c: Cluster, m: MessageModel) -> bool {
    m.command matches CommandModel::AppendEntries { term, prev_index, prev_term, entries, .. } ==> {
        &&& c.leader_logs.dom().contains(term)
        &&& prev_index + entries.len() <= c.leader_logs[term].len()
        &&& forall|k: int|
            0 <= k < entries.len() ==> #[trigger] entries[k] == c.leader_logs[term][prev_index
                + k]
        &&& prev_index > 0 ==> c.leader_logs[term][prev_index - 1].term == prev_term
    }
}

/// Every append request in the network carries a run of the log of the
/// leader of its term.
pub open spec fn appends_anchored(c: Cluster) -> bool {
    forall|m: MessageModel| #[trigger] c.network.contains(m) ==> carried(c, m)
}

/// What holds of every cluster a run can reach, as far as the contents of
/// logs go.
pub open spec fn matching_invariant(c: Cluster) -> bool {
    &&& logs_recorded(c)
    &&& logs_anchored(c)
    &&& appends_anchored(c)
}

/// The logs on record only grow at the end.
pub open spec fn records_grow(c: Cluster, d: Cluster) -> bool {
    forall|term: Term| #[trigger]
        c.leader_logs.dom().contains(term) ==> d.leader_logs.dom().contains(term)
            && c.leader_logs[term].is_prefix_of(d.leader_logs[term])
}

/// A step lets the logs on record only grow at the end.
pub proof fn step_grows_records(c: Cluster, d: Cluster, id: NodeId, cmd: CommandModel)
    requires
        election_invariant(c),
        election_invariant(d),
        logs_recorded(c),
        next_by(c, d, id, cmd),
    ensures
        records_grow(c, d),
{
    lemma_moved(c, d, id, cmd);
    let n = c.nodes[id];
    let o = step(n, cmd)->Ok_0;
    assert forall|term: Term| #[trigger] c.leader_logs.dom().contains(term) implies d.leader_logs.dom().contains(
        term,
    ) && c.leader_logs[term].is_prefix_of(d.leader_logs[term]) by {
        if o.node.role is Leader && term == o.node.state.current_term {
            let l = choose|l: NodeId| #[trigger] c.elected.contains((term, l));
            assert(d.elected.contains((term, l)));
            assert(d.elected.contains((term, id)));
            assert(l == id);
            assert(n.role is Leader);
            leader_appends_only(n, cmd);
        } else {
            assert(d.leader_logs[term] == c.leader_logs[term]);
        }
    }
}

/// What is anchored stays anchored when the logs on record grow.
pub proof fn lemma_anchored_stays(c: Cluster, d: Cluster, log: Seq<EntryModel>)
    requires
        records_grow(c, d),
        anchored(c, log),
    ensures
        anchored(d, log),
{
    assert forall|i: int, j: int| 0 <= j <= i < log.len() implies #[trigger] agrees(
        d,
        log,
        i,
        j,
    ) by {
        assert(agrees(c, log, i, j));
    }
}

/// A log that holds, position by position, what an anchored log holds is
/// anchored.
pub proof fn lemma_anchored_prefix(c: Cluster, whole: Seq<EntryModel>, log: Seq<EntryModel>)
    requires
        anchored(c, whole),
        log.len() <= whole.len(),
        forall|i: int| 0 <= i < log.len() ==> log[i] == whole[i],
    ensures
        anchored(c, log),
{
    assert forall|i: int, j: int| 0 <= j <= i < log.len() implies #[trigger] agrees(
        c,
        log,
        i,
        j,
    ) by {
        assert(agrees(c, whole, i, j));
    }
}

/// Two anchored logs that hold the same term at one position hold the same
/// entries up to that position.
pub proof fn lemma_anchored_agree(
    c: Cluster,
    a: Seq<EntryModel>,
    b: Seq<EntryModel>,
    i: int,
    j: int,
)
    requires
        anchored(c, a),
        anchored(c, b),
        0 <= j <= i < a.len(),
        i < b.len(),
        a[i].term == b[i].term,
    ensures
        a[j] == b[j],
{
    assert(agrees(c, a, i, j));
    assert(agrees(c, b, i, j));
}

/// Whether `a` and `b` hold the same entries at their first `n` positions.
pub open spec fn same_upto(a: Seq<EntryModel>, b: Seq<EntryModel>, n: int) -> bool {
    &&& n <= a.len()
    &&& n <= b.len()
    &&& forall|j: int| 0 <= j < n ==> a[j] == b[j]
}

/// The shape of a follower's log after it merged a run of an anchored log
/// into its own anchored log: up to the end of the run it is the anchored
/// log, and it has either stayed as it was or ends with the run.
pub proof fn lemma_merged_shape(
    c: Cluster,
    log: Seq<EntryModel>,
    whole: Seq<EntryModel>,
    prev_index: u64,
    prev_term: Term,
    entries: Seq<EntryModel>,
)
    requires
        anchored(c, log),
        anchored(c, whole),
        prev_index + entries.len() <= whole.len(),
        forall|k: int| 0 <= k < entries.len() ==> #[trigger] entries[k] == whole[prev_index + k],
        prev_index > 0 ==> whole[prev_index - 1].term == prev_term,
        prev_index == 0 || crate::log::term_at(log, prev_index) == Some(prev_term),
    ensures
        same_upto(merged(log, prev_index, entries), whole, prev_index + entries.len()),
        merged(log, prev_index, entries) == log || (entries.len() > 0 && merged(
            log,
            prev_index,
            entries,
        ).len() == prev_index + entries.len()),
        forall|j: int|
            0 <= j < prev_index + first_new(log, prev_index, entries, 0) ==> merged(
                log,
                prev_index,
                entries,
            )[j] == log[j],
        prev_index + first_new(log, prev_index, entries, 0) <= log.len(),
        merged(log, prev_index, entries) != log ==> first_new(log, prev_index, entries, 0)
            < entries.len(),
{
    let k = first_new(log, prev_index, entries, 0);
    lemma_first_new_bounds(log, prev_index, entries, 0);
    let after = merged(log, prev_index, entries);
    if k > 0 {
        lemma_first_new_held(log, prev_index, entries, k - 1);
    }
    assert(prev_index + k <= log.len());
    assert forall|i: int| 0 <= i < prev_index + entries.len() implies after[i] == whole[i] by {
        if i < prev_index + k {
            let at = prev_index + k - 1;
            assert(log[at].term == whole[at].term) by {
                if k > 0 {
                    assert(entries[k - 1] == whole[prev_index + (k - 1)]);
                }
            }
            lemma_anchored_agree(c, log, whole, at, i);
        } else {
            assert(after[i] == entries[i - prev_index]);
        }
    }
}

/// What a follower's log comes to when it merges a run of an anchored log
/// into its own anchored log: it stays as it is, or it becomes the anchored
/// log up to the end of the run.
pub proof fn lemma_merged_anchored(
    c: Cluster,
    log: Seq<EntryModel>,
    whole: Seq<EntryModel>,
    prev_index: u64,
    prev_term: Term,
    entries: Seq<EntryModel>,
)
    requires
        anchored(c, log),
        anchored(c, whole),
        prev_index + entries.len() <= whole.len(),
        forall|k: int| 0 <= k < entries.len() ==> #[trigger] entries[k] == whole[prev_index + k],
        prev_index > 0 ==> whole[prev_index - 1].term == prev_term,
        prev_index == 0 || crate::log::term_at(log, prev_index) == Some(prev_term),
    ensures
        anchored(c, merged(log, prev_index, entries)),
{
    let k = first_new(log, prev_index, entries, 0);
    lemma_first_new_bounds(log, prev_index, entries, 0);
    let after = merged(log, prev_index, entries);
    if k < entries.len() {
        if k > 0 {
            lemma_first_new_held(log, prev_index, entries, k - 1);
        }
        assert(prev_index + k <= log.len());
        assert forall|i: int| 0 <= i < after.len() implies after[i] == whole[i] by {
            if i < prev_index + k {
                let at = prev_index + k - 1;
                assert(log[at].term == whole[at].term) by {
                    if k > 0 {
                        assert(entries[k - 1] == whole[prev_index + (k - 1)]);
                    }
                }
                lemma_anchored_agree(c, log, whole, at, i);
            } else {
                assert(after[i] == entries[i - prev_index]);
            }
        }
        lemma_anchored_prefix(c, whole, after);
    }
}

/// A step keeps what holds of every reachable cluster as far as the
/// contents of logs go.
pub proof fn step_keeps_matching(c: Cluster, d: Cluster, id: NodeId, cmd: CommandModel)
    requires
        election_invariant(c),
        election_invariant(d),
        matching_invariant(c),
        next_by(c, d, id, cmd),
    ensures
        matching_invariant(d),
{
    lemma_moved(c, d, id, cmd);
    step_grows_records(c, d, id, cmd);
    let n = c.nodes[id];
    let o = step(n, cmd)->Ok_0;
    let after = d.nodes[id];
    step_changes_log(n, cmd);
    step_appends_sound(n, cmd);
    // The logs of the leaders are on record.
    assert forall|j: NodeId|
        d.nodes.dom().contains(j) && (#[trigger] d.nodes[j]).role is Leader implies d.leader_logs[d.nodes[j].state.current_term]
        == d.nodes[j].log by {
        if j != id && after.role is Leader && d.nodes[j].state.current_term
            == after.state.current_term {
            assert(d.elected.contains((after.state.current_term, j)));
            assert(d.elected.contains((after.state.current_term, id)));
        }
    }
    assert forall|term: Term| #[trigger] d.leader_logs.dom().contains(term) implies exists|
        l: NodeId,
    | #[trigger]
        d.elected.contains((term, l)) by {
        if c.leader_logs.dom().contains(term) {
            let l = choose|l: NodeId| #[trigger] c.elected.contains((term, l));
            assert(d.elected.contains((term, l)));
        } else {
            assert(d.elected.contains((term, id)));
        }
    }
    assert(logs_recorded(d));
    // The log of the node that took the step is anchored.
    assert(anchored(d, after.log)) by {
        lemma_anchored_stays(c, d, n.log);
        if after.log == n.log {
        } else if after.role is Leader && after.log.len() == n.log.len() + 1
            && after.log.last().term == after.state.current_term && n.log.is_prefix_of(
            after.log,
        ) {
            assert(d.leader_logs[after.state.current_term] == after.log);
            assert forall|i: int, j: int| 0 <= j <= i < after.log.len() implies #[trigger] agrees(
                d,
                after.log,
                i,
                j,
            ) by {
                if i < n.log.len() {
                    assert(agrees(d, n.log, i, j));
                    if n.log[i].term == after.state.current_term {
                    } else {
                    }
                }
            }
        } else {
            match cmd {
                CommandModel::AppendEntries { term, prev_index, prev_term, entries, .. } => {
                    assert(!local(cmd));
                    let m = choose|m: MessageModel|
                        #[trigger] c.network.contains(m) && addressed_to(m, id) && m.command
                            == cmd;
                    assert(carried(c, m));
                    let whole = c.leader_logs[term];
                    lemma_merged_anchored(c, n.log, whole, prev_index, prev_term, entries);
                    lemma_anchored_stays(c, d, after.log);
                },
                _ => {},
            }
        }
    }
    assert forall|j: NodeId| d.nodes.dom().contains(j) implies anchored(
        d,
        (#[trigger] d.nodes[j]).log,
    ) by {
        if j != id {
            lemma_anchored_stays(c, d, c.nodes[j].log);
        }
    }
    assert forall|term: Term| #[trigger] d.leader_logs.dom().contains(term) implies anchored(
        d,
        d.leader_logs[term],
    ) by {
        if after.role is Leader && term == after.state.current_term {
        } else {
            lemma_anchored_stays(c, d, c.leader_logs[term]);
        }
    }
    // Every append request carries a run of the log of its leader.
    assert forall|m: MessageModel| #[trigger] d.network.contains(m) implies carried(d, m) by {
        if c.network.contains(m) {
            assert(carried(c, m));
        } else {
            assert(o.messages.contains(m));
            let k = choose|k: int| 0 <= k < o.messages.len() && o.messages[k] == m;
            assert(sound_append(o.node, o.messages[k]));
        }
    }
}

/// What holds of every reachable cluster as far as elections and the
/// contents of logs go.
pub open spec fn log_invariant(c: Cluster) -> bool {
    election_invariant(c) && matching_invariant(c)
}

/// Every cluster of a run has what holds of every reachable cluster as far
/// as elections and the contents of logs go.
pub proof fn run_keeps_log_invariant(trace: Seq<Cluster>, k: int)
    requires
        execution(trace),
        0 <= k < trace.len(),
    ensures
        log_invariant(trace[k]),
    decreases k,
{
    run_keeps_election_invariant(trace, k);
    if k == 0 {
        assert(init(trace[0]));
        assert forall|id: NodeId| trace[0].nodes.dom().contains(id) implies anchored(
            trace[0],
            (#[trigger] trace[0].nodes[id]).log,
        ) && !(trace[0].nodes[id].role is Leader) by {
            assert(crate::cluster::starts(trace[0], id));
        }
    } else {
        run_keeps_log_invariant(trace, k - 1);
        let c = trace[k - 1];
        let d = trace[k];
        assert(next(trace[k - 1], trace[k - 1 + 1]));
        let (id, cmd) = choose|id: NodeId, cmd: CommandModel| next_by(c, d, id, cmd);
        step_keeps_matching(c, d, id, cmd);
    }
}

/// Log matching: at any point of a run, if the logs of two nodes hold an
/// entry of the same term at the same index, the two logs are identical up
/// to and including that index. Position `i` of a log holds index `i + 1`.
pub proof fn log_matching(trace: Seq<Cluster>, k: int, a: NodeId, b: NodeId, i: int)
    requires
        execution(trace),
        0 <= k < trace.len(),
        trace[k].nodes.dom().contains(a),
        trace[k].nodes.dom().contains(b),
        0 <= i < trace[k].nodes[a].log.len(),
        i < trace[k].nodes[b].log.len(),
        trace[k].nodes[a].log[i].term == trace[k].nodes[b].log[i].term,
    ensures
        trace[k].nodes[a].log.subrange(0, i + 1) == trace[k].nodes[b].log.subrange(0, i + 1),
{
    run_keeps_log_invariant(trace, k);
    let c = trace[k];
    let la = c.nodes[a].log;
    let lb = c.nodes[b].log;
    assert forall|j: int| 0 <= j <= i implies la[j] == lb[j] by {
        lemma_anchored_agree(c, la, lb, i, j);
    }
    assert(la.subrange(0, i + 1) =~= lb.subrange(0, i + 1));
}

} // verus!
