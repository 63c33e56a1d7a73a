use vstd::prelude::*;
use crate::cluster::{addressed_to, execution, init, leads, local, next, next_by, Cluster};
use crate::election::quorum;
use crate::invariants::{
    backed, follower_keeps_vote, leader_keeps_office, rightly_leads, sound_message,
    step_elects_rightly, step_keeps_identity, step_keeps_wf, step_sends_sound,
    step_tallies_backed, term_never_decreases,
};
use vstd::set_lib::{lemma_len_subset, lemma_set_intersect_union_lens};
use crate::node::{node_wf, step};
use crate::raft::{CommandModel, NodeId, Term};
use crate::rpc::{Address, MessageModel};

verus! {

/// The message by which `voter` grants `candidate` its vote in `term`.
pub open spec fn grant(term: Term, voter: NodeId, candidate: NodeId) -> MessageModel {
    MessageModel {
        from: Address::Peer(voter),
        to: Address::Peer(candidate),
        command: CommandModel::VoteResponse { term, from: voter, granted: true },
    }
}

/// The members that stand behind `candidate` in `term`: the candidate
/// itself and everyone whose grant is in the network.
pub open spec fn supporters(c: Cluster, term: Term, candidate: NodeId) -> Set<NodeId> {
    Set::new(
        |p: NodeId|
            c.nodes.dom().contains(p) && (p == candidate || c.network.contains(
                grant(term, p, candidate),
            )),
    )
}

/// The nodes are who the cluster says they are, they are well formed, and
/// each has all the others as peers.
pub open spec fn membership(c: Cluster) -> bool {
    &&& c.nodes.dom().finite()
    &&& forall|id: NodeId|
        c.nodes.dom().contains(id) ==> {
            &&& (#[trigger] c.nodes[id]).id == id
            &&& node_wf(c.nodes[id])
            &&& c.nodes[id].peers.to_set() == c.nodes.dom().remove(id)
        }
}

/// Every message names a member as its sender and one member as its
/// receiver, and a vote names its sender as the voter.
pub open spec fn signed(c: Cluster) -> bool {
    forall|m: MessageModel| #[trigger]
        c.network.contains(m) ==> {
            &&& m.from matches Address::Peer(s) && c.nodes.dom().contains(s) && (m.command
                matches CommandModel::VoteResponse { from, .. } ==> from == s)
            &&& m.to is Peer
        }
}

/// Whoever granted a vote in a term is, as long as it is in that term, a
/// follower that has voted for the receiver of the grant.
pub open spec fn grants_bind(c: Cluster) -> bool {
    forall|term: Term, p: NodeId, x: NodeId| #[trigger]
        c.network.contains(grant(term, p, x)) ==> {
            &&& c.nodes.dom().contains(p)
            &&& c.nodes[p].state.current_term >= term
            &&& c.nodes[p].state.current_term == term ==> c.nodes[p].role is Follower
                && c.nodes[p].state.voted_for == Some(x)
        }
}

/// Nobody granted two candidates its vote in one term.
pub open spec fn grants_unique(c: Cluster) -> bool {
    forall|term: Term, p: NodeId, x: NodeId, y: NodeId|
        #[trigger] c.network.contains(grant(term, p, x)) && #[trigger] c.network.contains(
            grant(term, p, y),
        ) ==> x == y
}

/// A candidate has counted, beside its own vote, only grants that are in
/// the network.
pub open spec fn tallies_backed(c: Cluster) -> bool {
    forall|id: NodeId, k: int|
        c.nodes.dom().contains(id) && c.nodes[id].role is Candidate && 0 <= k
            < c.nodes[id].role->Candidate_election.granted.len() ==> {
            let p = #[trigger] c.nodes[id].role->Candidate_election.granted[k];
            p == id || c.network.contains(grant(c.nodes[id].state.current_term, p, id))
        }
}

/// The record of leaders is kept: whoever leads is in it, whoever is in it
/// still leads in that term or has moved on to a higher one, has never
/// granted another node its vote in that term, and had a quorum behind it.
pub open spec fn record_kept(c: Cluster) -> bool {
    &&& forall|id: NodeId|
        c.nodes.dom().contains(id) && (#[trigger] c.nodes[id]).role is Leader
            ==> c.elected.contains((c.nodes[id].state.current_term, id))
    &&& forall|term: Term, id: NodeId| #[trigger]
        c.elected.contains((term, id)) ==> {
            &&& c.nodes.dom().contains(id)
            &&& c.nodes[id].state.current_term >= term
            &&& c.nodes[id].state.current_term == term ==> c.nodes[id].role is Leader
            &&& supporters(c, term, id).len() >= quorum(c.nodes.dom().len())
        }
    &&& forall|term: Term, id: NodeId, x: NodeId|
        #[trigger] c.elected.contains((term, id)) && x != id ==> !#[trigger] c.network.contains(
            grant(term, id, x),
        )
}

/// At most one node was elected in each term.
pub open spec fn one_leader_per_term(c: Cluster) -> bool {
    forall|term: Term, a: NodeId, b: NodeId|
        #[trigger] c.elected.contains((term, a)) && #[trigger] c.elected.contains((term, b)) ==> a
            == b
}

/// What holds of every cluster a run can reach, as far as elections go.
pub open spec fn election_invariant(c: Cluster) -> bool {
    &&& membership(c)
    &&& signed(c)
    &&& grants_bind(c)
    &&& grants_unique(c)
    &&& tallies_backed(c)
    &&& record_kept(c)
    &&& one_leader_per_term(c)
}

/// Two sets that together have more members than the set they are taken
/// from share a member.
pub proof fn lemma_quorums_meet(a: Set<NodeId>, b: Set<NodeId>, all: Set<NodeId>) -> (p: NodeId)
    requires
        all.finite(),
        a.subset_of(all),
        b.subset_of(all),
        a.len() + b.len() > all.len(),
    ensures
        a.contains(p),
        b.contains(p),
{
    lemma_len_subset(a, all);
    lemma_len_subset(b, all);
    lemma_len_subset(a + b, all);
    lemma_set_intersect_union_lens(a, b);
    lemma_len_subset(a.intersect(b), all);
    vstd::set_lib::lemma_set_empty_equivalency_len(a.intersect(b));
    let p = choose|p: NodeId| a.intersect(b).contains(p);
    p
}

/// A node and its peers are the whole cluster.
pub proof fn lemma_cluster_size(c: Cluster, id: NodeId)
    requires
        membership(c),
        c.nodes.dom().contains(id),
    ensures
        c.nodes[id].peers.len() + 1 == c.nodes.dom().len(),
{
    c.nodes[id].peers.unique_seq_to_set();
}

/// What a step changes in a cluster: the node that took it, and the
/// network by what that node sent.
pub proof fn lemma_moved(c: Cluster, d: Cluster, id: NodeId, cmd: CommandModel)
    requires
        next_by(c, d, id, cmd),
    ensures
        d.nodes.dom() == c.nodes.dom(),
        d.nodes[id] == step(c.nodes[id], cmd)->Ok_0.node,
        forall|j: NodeId| j != id ==> #[trigger] d.nodes[j] == c.nodes[j],
        forall|m: MessageModel| #[trigger]
            d.network.contains(m) <==> c.network.contains(m) || step(
                c.nodes[id],
                cmd,
            )->Ok_0.messages.contains(m),
        forall|m: MessageModel| #[trigger]
            step(c.nodes[id], cmd)->Ok_0.messages.contains(m) ==> sound_message(
                c.nodes[id],
                d.nodes[id],
                m,
            ),
        forall|t: Term, j: NodeId| #[trigger]
            d.elected.contains((t, j)) <==> c.elected.contains((t, j)) || (j == id && d.nodes[id].role
                is Leader && t == d.nodes[id].state.current_term),
        d.nodes[id].state.current_term >= c.nodes[id].state.current_term,
{
    let o = step(c.nodes[id], cmd)->Ok_0;
    assert(d.nodes.dom() =~= c.nodes.dom());
    step_sends_sound(c.nodes[id], cmd);
    term_never_decreases(c.nodes[id], cmd);
}

/// A step keeps the membership of a cluster.
pub proof fn step_keeps_membership(c: Cluster, d: Cluster, id: NodeId, cmd: CommandModel)
    requires
        membership(c),
        next_by(c, d, id, cmd),
    ensures
        membership(d),
{
    lemma_moved(c, d, id, cmd);
    step_keeps_identity(c.nodes[id], cmd);
    step_keeps_wf(c.nodes[id], cmd);
}

/// A step keeps every message signed.
pub proof fn step_keeps_signed(c: Cluster, d: Cluster, id: NodeId, cmd: CommandModel)
    requires
        membership(c),
        signed(c),
        next_by(c, d, id, cmd),
    ensures
        signed(d),
{
    lemma_moved(c, d, id, cmd);
}

/// A step keeps every grant binding.
pub proof fn step_keeps_grants(c: Cluster, d: Cluster, id: NodeId, cmd: CommandModel)
    requires
        membership(c),
        grants_bind(c),
        grants_unique(c),
        next_by(c, d, id, cmd),
    ensures
        grants_bind(d),
        grants_unique(d),
{
    lemma_moved(c, d, id, cmd);
    let n = c.nodes[id];
    let o = step(n, cmd)->Ok_0;
    assert forall|term: Term, p: NodeId, x: NodeId| #[trigger]
        d.network.contains(grant(term, p, x)) implies {
        &&& d.nodes.dom().contains(p)
        &&& d.nodes[p].state.current_term >= term
        &&& d.nodes[p].state.current_term == term ==> d.nodes[p].role is Follower
            && d.nodes[p].state.voted_for == Some(x)
    } by {
        if c.network.contains(grant(term, p, x)) {
            if p == id && d.nodes[p].state.current_term == term {
                follower_keeps_vote(n, cmd);
            }
        } else {
            assert(o.messages.contains(grant(term, p, x)));
        }
    }
    assert forall|term: Term, p: NodeId, x: NodeId, y: NodeId|
        #[trigger] d.network.contains(grant(term, p, x)) && #[trigger] d.network.contains(
            grant(term, p, y),
        ) implies x == y by {
        if !c.network.contains(grant(term, p, x)) {
            assert(o.messages.contains(grant(term, p, x)));
        }
        if !c.network.contains(grant(term, p, y)) {
            assert(o.messages.contains(grant(term, p, y)));
        }
    }
}

/// A step keeps every tally backed.
pub proof fn step_keeps_tallies(c: Cluster, d: Cluster, id: NodeId, cmd: CommandModel)
    requires
        membership(c),
        signed(c),
        tallies_backed(c),
        next_by(c, d, id, cmd),
    ensures
        tallies_backed(d),
{
    lemma_moved(c, d, id, cmd);
    let n = c.nodes[id];
    let o = step(n, cmd)->Ok_0;
    step_tallies_backed(n, cmd);
    step_keeps_identity(n, cmd);
    assert forall|j: NodeId, k: int|
        d.nodes.dom().contains(j) && d.nodes[j].role is Candidate && 0 <= k
            < d.nodes[j].role->Candidate_election.granted.len() implies ({
        let p = #[trigger] d.nodes[j].role->Candidate_election.granted[k];
        p == j || d.network.contains(grant(d.nodes[j].state.current_term, p, j))
    }) by {
        let p = d.nodes[j].role->Candidate_election.granted[k];
        if j == id {
            lemma_backed_in_network(c, d, id, cmd, p);
        } else {
            assert(p == c.nodes[j].role->Candidate_election.granted[k]);
        }
    }
}

/// A grant that backs the tally of the node that took a step is the
/// node's own vote or in the network.
pub proof fn lemma_backed_in_network(
    c: Cluster,
    d: Cluster,
    id: NodeId,
    cmd: CommandModel,
    p: NodeId,
)
    requires
        membership(c),
        signed(c),
        tallies_backed(c),
        next_by(c, d, id, cmd),
        backed(c.nodes[id], cmd, d.nodes[id], p),
    ensures
        p == id || d.network.contains(grant(d.nodes[id].state.current_term, p, id)),
        p == id || c.nodes.dom().contains(p),
{
    lemma_moved(c, d, id, cmd);
    let n = c.nodes[id];
    step_keeps_identity(n, cmd);
    let term = d.nodes[id].state.current_term;
    if p != id {
        if n.role is Candidate && n.state.current_term == term
            && n.role->Candidate_election.granted.contains(p) {
            let k = choose|k: int|
                0 <= k < n.role->Candidate_election.granted.len()
                    && n.role->Candidate_election.granted[k] == p;
            assert(c.network.contains(grant(term, p, id)));
        } else {
            assert(cmd == CommandModel::VoteResponse { term, from: p, granted: true });
            assert(!local(cmd));
            let m = choose|m: MessageModel|
                #[trigger] c.network.contains(m) && addressed_to(m, id) && m.command == cmd;
            assert(m == grant(term, p, id));
        }
        let g = grant(term, p, id);
        assert(c.network.contains(g));
    }
}

/// A step keeps the record of leaders.
pub proof fn step_keeps_record(c: Cluster, d: Cluster, id: NodeId, cmd: CommandModel)
    requires
        election_invariant(c),
        next_by(c, d, id, cmd),
        membership(d),
        grants_bind(d),
    ensures
        record_kept(d),
{
    lemma_moved(c, d, id, cmd);
    let n = c.nodes[id];
    let o = step(n, cmd)->Ok_0;
    step_keeps_identity(n, cmd);
    if n.role is Leader {
        leader_keeps_office(n, cmd);
    }
    assert forall|term: Term, j: NodeId| #[trigger]
        d.elected.contains((term, j)) implies {
        &&& d.nodes.dom().contains(j)
        &&& d.nodes[j].state.current_term >= term
        &&& d.nodes[j].state.current_term == term ==> d.nodes[j].role is Leader
        &&& supporters(d, term, j).len() >= quorum(d.nodes.dom().len())
    } by {
        assert(supporters(d, term, j).subset_of(d.nodes.dom()));
        if c.elected.contains((term, j)) {
            assert(supporters(c, term, j).subset_of(supporters(d, term, j)));
            lemma_len_subset(supporters(d, term, j), d.nodes.dom());
            lemma_len_subset(supporters(c, term, j), supporters(d, term, j));
        } else {
            lemma_new_leader_backed(c, d, id, cmd);
        }
    }
    assert forall|term: Term, j: NodeId, x: NodeId|
        #[trigger] d.elected.contains((term, j)) && x != j implies !#[trigger] d.network.contains(
            grant(term, j, x),
        ) by {
        if d.network.contains(grant(term, j, x)) {
            if c.network.contains(grant(term, j, x)) {
                if !c.elected.contains((term, j)) {
                    follower_keeps_vote(n, cmd);
                }
            } else {
                assert(o.messages.contains(grant(term, j, x)));
            }
        }
    }
}

/// Whoever comes to lead by a step has a quorum behind it.
pub proof fn lemma_new_leader_backed(c: Cluster, d: Cluster, id: NodeId, cmd: CommandModel)
    requires
        election_invariant(c),
        next_by(c, d, id, cmd),
        d.nodes[id].role is Leader,
        !c.elected.contains((d.nodes[id].state.current_term, id)),
    ensures
        supporters(d, d.nodes[id].state.current_term, id).len() >= quorum(d.nodes.dom().len()),
{
    lemma_moved(c, d, id, cmd);
    let n = c.nodes[id];
    let term = d.nodes[id].state.current_term;
    step_elects_rightly(n, cmd);
    lemma_cluster_size(c, id);
    assert(rightly_leads(n, cmd, d.nodes[id]));
    let granted = choose|granted: Seq<NodeId>|
        {
            &&& #[trigger] granted.no_duplicates()
            &&& granted.len() >= quorum((n.peers.len() + 1) as nat)
            &&& forall|k: int|
                0 <= k < granted.len() ==> backed(n, cmd, d.nodes[id], #[trigger] granted[k])
        };
    granted.unique_seq_to_set();
    assert(granted.to_set().subset_of(supporters(d, term, id))) by {
        assert forall|p: NodeId| granted.to_set().contains(p) implies supporters(
            d,
            term,
            id,
        ).contains(p) by {
            let k = choose|k: int| 0 <= k < granted.len() && granted[k] == p;
            assert(backed(n, cmd, d.nodes[id], granted[k]));
            lemma_backed_in_network(c, d, id, cmd, p);
        }
    }
    assert(supporters(d, term, id).subset_of(d.nodes.dom()));
    lemma_len_subset(supporters(d, term, id), d.nodes.dom());
    lemma_len_subset(granted.to_set(), supporters(d, term, id));
}

/// A step keeps the leader of every term the only one.
pub proof fn step_keeps_one_leader(c: Cluster, d: Cluster, id: NodeId, cmd: CommandModel)
    requires
        election_invariant(c),
        next_by(c, d, id, cmd),
        membership(d),
        grants_unique(d),
        record_kept(d),
    ensures
        one_leader_per_term(d),
{
    lemma_moved(c, d, id, cmd);
    assert forall|term: Term, a: NodeId, b: NodeId|
        #[trigger] d.elected.contains((term, a)) && #[trigger] d.elected.contains(
            (term, b),
        ) implies a == b by {
        if a != b {
            let sa = supporters(d, term, a);
            let sb = supporters(d, term, b);
            assert(sa.subset_of(d.nodes.dom()));
            assert(sb.subset_of(d.nodes.dom()));
            let p = lemma_quorums_meet(sa, sb, d.nodes.dom());
            if p == a {
                assert(d.network.contains(grant(term, a, b)));
            } else if p == b {
                assert(d.network.contains(grant(term, b, a)));
            } else {
                assert(d.network.contains(grant(term, p, a)));
                assert(d.network.contains(grant(term, p, b)));
            }
        }
    }
}

/// A step keeps what holds of every reachable cluster as far as elections
/// go.
pub proof fn step_keeps_election_invariant(c: Cluster, d: Cluster)
    requires
        election_invariant(c),
        next(c, d),
    ensures
        election_invariant(d),
{
    let (id, cmd) = choose|id: NodeId, cmd: CommandModel| next_by(c, d, id, cmd);
    step_keeps_membership(c, d, id, cmd);
    step_keeps_signed(c, d, id, cmd);
    step_keeps_grants(c, d, id, cmd);
    step_keeps_tallies(c, d, id, cmd);
    step_keeps_record(c, d, id, cmd);
    step_keeps_one_leader(c, d, id, cmd);
}

/// An initial cluster has what holds of every reachable cluster as far as
/// elections go.
pub proof fn init_has_election_invariant(c: Cluster)
    requires
        init(c),
    ensures
        election_invariant(c),
{
    assert forall|id: NodeId| c.nodes.dom().contains(id) implies {
        &&& (#[trigger] c.nodes[id]).id == id
        &&& node_wf(c.nodes[id])
        &&& c.nodes[id].peers.to_set() == c.nodes.dom().remove(id)
        &&& c.nodes[id].role is Follower
    } by {
        assert(crate::cluster::starts(c, id));
    }
}

/// Every cluster of a run has what holds of every reachable cluster as far
/// as elections go.
pub proof fn run_keeps_election_invariant(trace: Seq<Cluster>, k: int)
    requires
        execution(trace),
        0 <= k < trace.len(),
    ensures
        election_invariant(trace[k]),
    decreases k,
{
    if k == 0 {
        init_has_election_invariant(trace[0]);
    } else {
        run_keeps_election_invariant(trace, k - 1);
        assert(next(trace[k - 1], trace[k - 1 + 1]));
        step_keeps_election_invariant(trace[k - 1], trace[k]);
    }
}

/// The record of leaders only grows along a run.
pub proof fn run_keeps_record(trace: Seq<Cluster>, i: int, j: int)
    requires
        execution(trace),
        0 <= i <= j < trace.len(),
    ensures
        trace[i].elected.subset_of(trace[j].elected),
    decreases j - i,
{
    if i < j {
        run_keeps_record(trace, i, j - 1);
        assert(next(trace[j - 1], trace[j - 1 + 1]));
        let c = trace[j - 1];
        let d = trace[j];
        let (id, cmd) = choose|id: NodeId, cmd: CommandModel| next_by(c, d, id, cmd);
        lemma_moved(c, d, id, cmd);
    }
}

/// Election safety: in a run of a cluster, at most one node is ever leader
/// in a given term. If node `a` leads in `term` at one point of the run
/// and node `b` leads in `term` at another, they are the same node.
pub proof fn election_safety(trace: Seq<Cluster>, i: int, j: int, a: NodeId, b: NodeId, term: Term)
    requires
        execution(trace),
        0 <= i < trace.len(),
        0 <= j < trace.len(),
        leads(trace[i], a, term),
        leads(trace[j], b, term),
    ensures
        a == b,
{
    let last = trace.len() - 1;
    run_keeps_election_invariant(trace, i);
    run_keeps_election_invariant(trace, j);
    run_keeps_election_invariant(trace, last);
    run_keeps_record(trace, i, last);
    run_keeps_record(trace, j, last);
    assert(trace[i].elected.contains((term, a)));
    assert(trace[j].elected.contains((term, b)));
    assert(trace[last].elected.contains((term, a)));
    assert(trace[last].elected.contains((term, b)));
}

/// Term monotonicity: in a run of a cluster, the term of a node at a later
/// point is at least its term at an earlier point.
pub proof fn term_monotonicity(trace: Seq<Cluster>, i: int, j: int, id: NodeId)
    requires
        execution(trace),
        0 <= i <= j < trace.len(),
        trace[i].nodes.dom().contains(id),
    ensures
        trace[j].nodes.dom().contains(id),
        trace[i].nodes[id].state.current_term <= trace[j].nodes[id].state.current_term,
    decreases j - i,
{
    if i < j {
        term_monotonicity(trace, i, j - 1, id);
        let c = trace[j - 1];
        let d = trace[j];
        assert(next(trace[j - 1], trace[j - 1 + 1]));
        let (by, cmd) = choose|by: NodeId, cmd: CommandModel| next_by(c, d, by, cmd);
        lemma_moved(c, d, by, cmd);
    }
}

/// Leader append-only: in a run of a cluster, as long as a node stays
/// leader its log only grows at the end. If the node is leader at every
/// point from `i` to `j`, its log at `i` is a prefix of its log at `j`.
pub proof fn leader_append_only(trace: Seq<Cluster>, i: int, j: int, id: NodeId)
    requires
        execution(trace),
        0 <= i <= j < trace.len(),
        trace[i].nodes.dom().contains(id),
        forall|k: int| i <= k <= j ==> (#[trigger] trace[k]).nodes[id].role is Leader,
    ensures
        trace[i].nodes[id].log.is_prefix_of(trace[j].nodes[id].log),
    decreases j - i,
{
    if i < j {
        leader_append_only(trace, i, j - 1, id);
        let c = trace[j - 1];
        let d = trace[j];
        assert(next(trace[j - 1], trace[j - 1 + 1]));
        let (by, cmd) = choose|by: NodeId, cmd: CommandModel| next_by(c, d, by, cmd);
        lemma_moved(c, d, by, cmd);
        assert(c.nodes[id].role is Leader);
        assert(d.nodes[id].role is Leader);
        if by == id {
            crate::invariants::leader_appends_only(c.nodes[id], cmd);
        }
        assert(c.nodes[id].log.is_prefix_of(d.nodes[id].log));
    }
}

/// One vote per term: in a run of a cluster, no node ever grants two
/// candidates its vote in the same term.
pub proof fn one_vote_per_term(
    trace: Seq<Cluster>,
    k: int,
    term: Term,
    voter: NodeId,
    x: NodeId,
    y: NodeId,
)
    requires
        execution(trace),
        0 <= k < trace.len(),
        trace[k].network.contains(grant(term, voter, x)),
        trace[k].network.contains(grant(term, voter, y)),
    ensures
        x == y,
{
    run_keeps_election_invariant(trace, k);
}

} // verus!
