use vstd::prelude::*;
use crate::raft::{LogIndex, NodeId};

verus! {

/// What a leader knows about the log of one member.
#[derive(Clone, Copy, Debug, PartialEq, Eq, Structural)]
pub struct NodeProgress {
    /// The member.
    pub id: NodeId,
    /// The index of the next entry to send to it.
    pub next_index: LogIndex,
    /// The highest index known to be replicated on it.
    pub match_index: LogIndex,
}

/// The progress a new leader starts from: every peer is sent the entry after
/// the leader's last one next and has nothing known to be replicated; the
/// leader itself, listed last, has its whole log.
pub open spec fn initial(peers: Seq<NodeId>, id: NodeId, last_index: LogIndex) -> Seq<
    NodeProgress,
> {
    Seq::new(
        peers.len() + 1,
        |i: int|
            if i < peers.len() {
                NodeProgress {
                    id: peers[i],
                    next_index: (last_index + 1) as u64,
                    match_index: 0,
                }
            } else {
                NodeProgress {
                    id,
                    next_index: (last_index + 1) as u64,
                    match_index: last_index,
                }
            },
    )
}

/// The first position at or after `k` that belongs to `id`, or the length
/// of `p` if there is none.
pub open spec fn position_from(p: Seq<NodeProgress>, id: NodeId, k: int) -> int
    decreases p.len() - k,
{
    if k < 0 || k >= p.len() {
        p.len() as int
    } else if p[k].id == id {
        k
    } else {
        position_from(p, id, k + 1)
    }
}

/// The first position that belongs to `id`, or the length of `p` if there
/// is none.
pub open spec fn position(p: Seq<NodeProgress>, id: NodeId) -> int {
    position_from(p, id, 0)
}

/// The entry of a member after it acknowledged `index`.
pub open spec fn acknowledged(e: NodeProgress, index: LogIndex) -> NodeProgress {
    let m = if index > e.match_index {
        index
    } else {
        e.match_index
    };
    NodeProgress { id: e.id, next_index: (m + 1) as u64, match_index: m }
}

/// The entry of a member after it refused: one step back, never below 1.
pub open spec fn refused(e: NodeProgress) -> NodeProgress {
    NodeProgress {
        id: e.id,
        next_index: if e.next_index > 1 {
            (e.next_index - 1) as u64
        } else {
            1
        },
        match_index: e.match_index,
    }
}

/// The progress after member `id` acknowledged `index`.
pub open spec fn advanced(p: Seq<NodeProgress>, id: NodeId, index: LogIndex) -> Seq<NodeProgress> {
    let i = position(p, id);
    if i < p.len() {
        p.update(i, acknowledged(p[i], index))
    } else {
        p
    }
}

/// The progress after member `id` refused.
pub open spec fn retreated(p: Seq<NodeProgress>, id: NodeId) -> Seq<NodeProgress> {
    let i = position(p, id);
    if i < p.len() {
        p.update(i, refused(p[i]))
    } else {
        p
    }
}

/// How many of the first `k` members are known to hold index `n`.
pub open spec fn acks_among(p: Seq<NodeProgress>, n: LogIndex, k: int) -> nat
    decreases k,
{
    if k <= 0 || k > p.len() {
        0
    } else {
        acks_among(p, n, k - 1) + if p[k - 1].match_index >= n {
            1nat
        } else {
            0nat
        }
    }
}

/// How many members are known to hold index `n`.
pub open spec fn acks(p: Seq<NodeProgress>, n: LogIndex) -> nat {
    acks_among(p, n, p.len() as int)
}

/// Scanning from `k` finds the same position as scanning from the start
/// when nothing before `k` belongs to `id`.
pub proof fn lemma_position_skip(p: Seq<NodeProgress>, id: NodeId, k: int)
    requires
        0 <= k <= p.len(),
        forall|j: int| 0 <= j < k ==> (#[trigger] p[j]).id != id,
    ensures
        position(p, id) == position_from(p, id, k),
    decreases k,
{
    if k > 0 {
        lemma_position_skip(p, id, k - 1);
    }
}

/// Where `position` points, if anywhere, the entry belongs to `id`, and no
/// earlier entry does.
pub proof fn lemma_position(p: Seq<NodeProgress>, id: NodeId, k: int)
    requires
        0 <= k <= p.len(),
    ensures
        k <= position_from(p, id, k) <= p.len(),
        position_from(p, id, k) < p.len() ==> p[position_from(p, id, k)].id == id,
        forall|j: int| k <= j < position_from(p, id, k) ==> (#[trigger] p[j]).id != id,
    decreases p.len() - k,
{
    if k < p.len() && p[k].id != id {
        lemma_position(p, id, k + 1);
    }
}

/// Per-member replication bookkeeping of a leader.
#[derive(Debug)]
pub struct ReplicationProgress {
    nodes: Vec<NodeProgress>,
}

impl View for ReplicationProgress {
    type V = Seq<NodeProgress>;

    closed spec fn view(&self) -> Seq<NodeProgress> {
        self.nodes@
    }
}

impl ReplicationProgress {
    /// The progress of a leader that was just elected with `last_index` as
    /// the last index of its log.
    pub fn new(peers: &Vec<NodeId>, id: NodeId, last_index: LogIndex) -> (p: ReplicationProgress)
        requires
            last_index < u64::MAX,
        ensures
            p@ == initial(peers@, id, last_index),
    {
        let mut nodes: Vec<NodeProgress> = Vec::new();
        let mut i: usize = 0;
        while i < peers.len()
            invariant
                i <= peers.len(),
                last_index < u64::MAX,
                nodes.len() == i,
                forall|j: int| 0 <= j < i ==> nodes@[j] == initial(peers@, id, last_index)[j],
            decreases peers.len() - i,
        {
            nodes.push(NodeProgress { id: peers[i], next_index: last_index + 1, match_index: 0 });
            i += 1;
        }
        nodes.push(NodeProgress { id, next_index: last_index + 1, match_index: last_index });
        assert(nodes@ =~= initial(peers@, id, last_index));
        ReplicationProgress { nodes }
    }

    /// How many members are tracked.
    pub fn len(&self) -> (n: usize)
        ensures
            n == self@.len(),
    {
        self.nodes.len()
    }

    /// The entry at position `i`.
    pub fn at(&self, i: usize) -> (e: NodeProgress)
        requires
            i < self@.len(),
        ensures
            e == self@[i as int],
    {
        self.nodes[i]
    }

    /// The first position that belongs to `id`, or `len()` if none does.
    pub fn find(&self, id: NodeId) -> (i: usize)
        ensures
            i == position(self@, id),
    {
        let mut i: usize = 0;
        while i < self.nodes.len()
            invariant
                i <= self.nodes.len(),
                forall|j: int| 0 <= j < i ==> (#[trigger] self.nodes@[j]).id != id,
            decreases self.nodes.len() - i,
        {
            if self.nodes[i].id == id {
                proof {
                    lemma_position_skip(self@, id, i as int);
                }
                return i;
            }
            i += 1;
        }
        proof {
            lemma_position_skip(self@, id, i as int);
        }
        i
    }

    /// Takes down that member `id` holds the log up to `index`:
    /// `match_index` rises to `index` if that is higher, and `next_index`
    /// follows it. An unknown member changes nothing.
    pub fn advance(&mut self, id: NodeId, index: LogIndex)
        requires
            index < u64::MAX,
            forall|i: int| 0 <= i < old(self)@.len() ==> (#[trigger] old(self)@[i]).match_index
                < u64::MAX,
        ensures
            final(self)@ == advanced(old(self)@, id, index),
    {
        let i = self.find(id);
        if i < self.nodes.len() {
            let e = self.nodes[i];
            let m = if index > e.match_index {
                index
            } else {
                e.match_index
            };
            self.nodes.set(i, NodeProgress { id: e.id, next_index: m + 1, match_index: m });
        }
    }

    /// Takes down that member `id` refused an append: `next_index` steps
    /// back by one, but not below 1. An unknown member changes nothing.
    pub fn retreat(&mut self, id: NodeId)
        ensures
            final(self)@ == retreated(old(self)@, id),
    {
        let i = self.find(id);
        if i < self.nodes.len() {
            let e = self.nodes[i];
            let next = if e.next_index > 1 {
                e.next_index - 1
            } else {
                1
            };
            self.nodes.set(i, NodeProgress { id: e.id, next_index: next, match_index: e.match_index });
        }
    }

    /// How many members are known to hold index `n`.
    pub fn acks(&self, n: LogIndex) -> (count: usize)
        ensures
            count == acks(self@, n),
    {
        let mut count: usize = 0;
        let mut k: usize = 0;
        while k < self.nodes.len()
            invariant
                k <= self.nodes.len(),
                count == acks_among(self@, n, k as int),
                count <= k,
            decreases self.nodes.len() - k,
        {
            if self.nodes[k].match_index >= n {
                count += 1;
            }
            k += 1;
        }
        count
    }
}

} // verus!
