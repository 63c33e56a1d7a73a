use vstd::prelude::*;
use crate::cluster::{execution, init, next, next_by, starts, Cluster};
use crate::durability::{
    durable_invariant, leaders_complete, run_keeps_durable_invariant, run_keeps_settled, sealed,
    settled,
};
use crate::invariants::step_hands_committed;
use crate::matching::same_upto;
use crate::node::{node_wf, step};
use crate::raft::{CommandModel, EntryModel, NodeId, Payload, Term};
use crate::safety::lemma_moved;

verus! {

/// What each node has handed to its driver is its log up to the last
/// applied index.
pub open spec fn handed_over(c: Cluster) -> bool {
    forall|id: NodeId|
        c.nodes.dom().contains(id) ==> #[trigger] c.applied[id] == c.nodes[id].log.subrange(
            0,
            c.nodes[id].state.last_applied as int,
        )
}

/// A step keeps what was handed over in line with the log.
pub proof fn step_keeps_handed_over(c: Cluster, d: Cluster, id: NodeId, cmd: CommandModel)
    requires
        durable_invariant(c),
        handed_over(c),
        next_by(c, d, id, cmd),
    ensures
        handed_over(d),
{
    lemma_moved(c, d, id, cmd);
    let before = c.nodes[id];
    let after = d.nodes[id];
    assert(node_wf(before));
    step_hands_committed(before, cmd);
    assert forall|j: NodeId| d.nodes.dom().contains(j) implies #[trigger] d.applied[j]
        == d.nodes[j].log.subrange(0, d.nodes[j].state.last_applied as int) by {
        if j == id {
            assert(c.applied[id] == before.log.subrange(0, before.state.last_applied as int));
            assert(d.applied[id] =~= after.log.subrange(0, after.state.last_applied as int));
        } else {
            assert(d.applied[j] == c.applied[j]);
        }
    }
}

/// At every point of a run, what each node has handed to its driver is its
/// log up to the last applied index.
pub proof fn run_keeps_handed_over(trace: Seq<Cluster>, k: int)
    requires
        execution(trace),
        0 <= k < trace.len(),
    ensures
        handed_over(trace[k]),
    decreases k,
{
    if k == 0 {
        let c = trace[0];
        assert(init(c));
        assert forall|id: NodeId| c.nodes.dom().contains(id) implies #[trigger] c.applied[id]
            == c.nodes[id].log.subrange(0, c.nodes[id].state.last_applied as int) by {
            assert(starts(c, id));
            assert(c.applied[id] =~= c.nodes[id].log.subrange(0, 0));
        }
    } else {
        run_keeps_handed_over(trace, k - 1);
        run_keeps_durable_invariant(trace, k - 1);
        let c = trace[k - 1];
        let d = trace[k];
        assert(next(trace[k - 1], trace[k - 1 + 1]));
        let (id, cmd) = choose|id: NodeId, cmd: CommandModel| next_by(c, d, id, cmd);
        step_keeps_handed_over(c, d, id, cmd);
    }
}

/// Two logs that are settled in one cluster hold the same entries as far
/// as both are settled.
pub proof fn lemma_settled_agree(
    c: Cluster,
    upper: Term,
    log: Seq<EntryModel>,
    m: int,
    above: Term,
    other: Seq<EntryModel>,
    k: int,
    j: int,
)
    requires
        durable_invariant(c),
        settled(c, upper, log, m),
        settled(c, above, other, k),
        0 <= j < m,
        j < k,
    ensures
        log[j] == other[j],
{
    let (term, n) = choose|term: Term, n: int|
        term <= upper && n >= m && #[trigger] sealed(c, term, n) && c.leader_logs.dom().contains(
            term,
        ) && same_upto(log, c.leader_logs[term], m);
    let (later, q) = choose|later: Term, q: int|
        later <= above && q >= k && #[trigger] sealed(c, later, q) && c.leader_logs.dom().contains(
            later,
        ) && same_upto(other, c.leader_logs[later], k);
    if term < later {
        leaders_complete(c, term, n, later);
    } else if later < term {
        leaders_complete(c, later, q, term);
    }
}

/// State-machine safety: two nodes that have both reached the same last
/// applied index, at whatever points of a run, have handed the same
/// entries to their drivers in the same order, and so the same data to
/// their state machines.
pub proof fn state_machine_safety(trace: Seq<Cluster>, i: int, j: int, a: NodeId, b: NodeId)
    requires
        execution(trace),
        0 <= i < trace.len(),
        0 <= j < trace.len(),
        trace[i].nodes.dom().contains(a),
        trace[j].nodes.dom().contains(b),
        trace[i].nodes[a].state.last_applied == trace[j].nodes[b].state.last_applied,
    ensures
        trace[i].applied[a] == trace[j].applied[b],
        data_of(trace[i].applied[a]) == data_of(trace[j].applied[b]),
{
    let last = trace.len() - 1;
    run_keeps_durable_invariant(trace, i);
    run_keeps_durable_invariant(trace, j);
    run_keeps_durable_invariant(trace, last);
    run_keeps_handed_over(trace, i);
    run_keeps_handed_over(trace, j);
    let x = trace[i].nodes[a];
    let y = trace[j].nodes[b];
    assert(node_wf(x));
    assert(node_wf(y));
    let m = x.state.last_applied as int;
    run_keeps_settled(trace, i, last, x.state.current_term, x.log, x.state.commit_index as int);
    run_keeps_settled(trace, j, last, y.state.current_term, y.log, y.state.commit_index as int);
    assert forall|k: int| 0 <= k < m implies x.log[k] == y.log[k] by {
        lemma_settled_agree(
            trace[last],
            x.state.current_term,
            x.log,
            x.state.commit_index as int,
            y.state.current_term,
            y.log,
            y.state.commit_index as int,
            k,
        );
    }
    assert(x.log.subrange(0, m) =~= y.log.subrange(0, m));
}

/// The data among `entries`, in order: what a driver hands to its state
/// machine when it is handed `entries`.
pub open spec fn data_of(entries: Seq<EntryModel>) -> Seq<Seq<u8>>
    decreases entries.len(),
{
    if entries.len() == 0 {
        Seq::empty()
    } else {
        data_of(entries.drop_last()) + match entries.last().payload {
            Payload::Data(data) => seq![data],
            _ => Seq::empty(),
        }
    }
}

} // verus!
