use vstd::prelude::*;
use crate::raft::{NodeId, Term};

verus! {

/// Where an election stands.
#[derive(Clone, Copy, Debug, PartialEq, Eq, Structural)]
pub enum ElectionStatus {
    /// Neither a majority of grants nor a majority of denials has come in.
    Voting,
    /// A majority granted its vote.
    Elected,
    /// So many denied that a majority can no longer be reached.
    Defeated,
}

/// Mathematical value of an [`Election`]: the term, the voters, and who has
/// granted and who has denied so far, in the order the votes came in.
pub ghost struct ElectionModel {
    pub term: Term,
    pub voters: Seq<NodeId>,
    pub granted: Seq<NodeId>,
    pub denied: Seq<NodeId>,
}

/// A strict majority of `n` members.
pub open spec fn quorum(n: nat) -> nat {
    n / 2 + 1
}

/// Nobody is listed twice, only voters are listed, and nobody both granted
/// and denied.
pub open spec fn election_wf(e: ElectionModel) -> bool {
    &&& e.voters.no_duplicates()
    &&& e.granted.no_duplicates()
    &&& e.denied.no_duplicates()
    &&& forall|i: int| 0 <= i < e.granted.len() ==> e.voters.contains(#[trigger] e.granted[i])
    &&& forall|i: int| 0 <= i < e.denied.len() ==> e.voters.contains(#[trigger] e.denied[i])
    &&& forall|i: int, j: int|
        0 <= i < e.granted.len() && 0 <= j < e.denied.len() ==> #[trigger] e.granted[i]
            != #[trigger] e.denied[j]
}

/// The status the tallies amount to.
pub open spec fn status(e: ElectionModel) -> ElectionStatus {
    if e.granted.len() >= quorum(e.voters.len()) {
        ElectionStatus::Elected
    } else if e.denied.len() > e.voters.len() - quorum(e.voters.len()) {
        ElectionStatus::Defeated
    } else {
        ElectionStatus::Voting
    }
}

/// Whether a vote of `from` would be taken down: it is a voter that has not
/// voted yet.
pub open spec fn counts(e: ElectionModel, from: NodeId) -> bool {
    e.voters.contains(from) && !e.granted.contains(from) && !e.denied.contains(from)
}

/// The election after `from` voted: the first vote of a voter is taken down,
/// anything else changes nothing.
pub open spec fn recorded(e: ElectionModel, from: NodeId, granted: bool) -> ElectionModel {
    if !counts(e, from) {
        e
    } else if granted {
        ElectionModel { granted: e.granted.push(from), ..e }
    } else {
        ElectionModel { denied: e.denied.push(from), ..e }
    }
}

/// The election with its tallies cleared.
pub open spec fn cleared(e: ElectionModel) -> ElectionModel {
    ElectionModel { granted: Seq::empty(), denied: Seq::empty(), ..e }
}

/// Taking a vote down keeps the election well formed.
pub proof fn lemma_recorded_wf(e: ElectionModel, from: NodeId, granted: bool)
    requires
        election_wf(e),
    ensures
        election_wf(recorded(e, from, granted)),
{
    let r = recorded(e, from, granted);
    if counts(e, from) {
        if granted {
            assert forall|i: int, j: int|
                0 <= i < r.granted.len() && 0 <= j < r.granted.len() && i != j implies r.granted[i]
                != r.granted[j] by {
                if i == e.granted.len() {
                    assert(e.granted.contains(e.granted[j]));
                }
                if j == e.granted.len() {
                    assert(e.granted.contains(e.granted[i]));
                }
            }
            assert forall|i: int, j: int|
                0 <= i < r.granted.len() && 0 <= j < r.denied.len() implies #[trigger] r.granted[i]
                != #[trigger] r.denied[j] by {
                if i == e.granted.len() {
                    assert(e.denied.contains(e.denied[j]));
                }
            }
        } else {
            assert forall|i: int, j: int|
                0 <= i < r.denied.len() && 0 <= j < r.denied.len() && i != j implies r.denied[i]
                != r.denied[j] by {
                if i == e.denied.len() {
                    assert(e.denied.contains(e.denied[j]));
                }
                if j == e.denied.len() {
                    assert(e.denied.contains(e.denied[i]));
                }
            }
            assert forall|i: int, j: int|
                0 <= i < r.granted.len() && 0 <= j < r.denied.len() implies #[trigger] r.granted[i]
                != #[trigger] r.denied[j] by {
                if j == e.denied.len() {
                    assert(e.granted.contains(e.granted[i]));
                }
            }
        }
    }
}

/// Whether `id` occurs in `ids`.
pub fn contains_id(ids: &Vec<NodeId>, id: NodeId) -> (found: bool)
    ensures
        found == ids@.contains(id),
{
    let mut i: usize = 0;
    while i < ids.len()
        invariant
            i <= ids.len(),
            forall|j: int| 0 <= j < i ==> ids@[j] != id,
        decreases ids.len() - i,
    {
        if ids[i] == id {
            return true;
        }
        i += 1;
    }
    false
}

/// Whether no id occurs twice in `ids`.
pub fn distinct_ids(ids: &Vec<NodeId>) -> (ok: bool)
    ensures
        ok == ids@.no_duplicates(),
{
    let mut i: usize = 0;
    while i < ids.len()
        invariant
            i <= ids.len(),
            forall|a: int, b: int| 0 <= a < i && 0 <= b < ids.len() && a != b ==> ids@[a] != ids@[b],
        decreases ids.len() - i,
    {
        let mut j: usize = 0;
        while j < ids.len()
            invariant
                i < ids.len(),
                j <= ids.len(),
                forall|b: int| 0 <= b < j && b != i ==> ids@[i as int] != ids@[b],
            decreases ids.len() - j,
        {
            if j != i && ids[i] == ids[j] {
                return false;
            }
            j += 1;
        }
        i += 1;
    }
    true
}

/// Per-term vote tally of a candidate.
#[derive(Debug)]
pub struct Election {
    term: Term,
    voters: Vec<NodeId>,
    granted: Vec<NodeId>,
    denied: Vec<NodeId>,
}

impl View for Election {
    type V = ElectionModel;

    closed spec fn view(&self) -> ElectionModel {
        ElectionModel {
            term: self.term,
            voters: self.voters@,
            granted: self.granted@,
            denied: self.denied@,
        }
    }
}

impl Election {
    /// Whether the tallies are consistent with the set of voters.
    pub open spec fn wf(&self) -> bool {
        election_wf(self@)
    }

    /// An election in `term` among `voters`, which include the candidate
    /// itself; no vote has come in yet.
    pub fn new(term: Term, voters: Vec<NodeId>) -> (e: Election)
        requires
            voters@.no_duplicates(),
        ensures
            e.wf(),
            e@ == (ElectionModel {
                term,
                voters: voters@,
                granted: Seq::empty(),
                denied: Seq::empty(),
            }),
    {
        Election { term, voters, granted: Vec::new(), denied: Vec::new() }
    }

    /// The term the election is held in.
    pub fn term(&self) -> (term: Term)
        ensures
            term == self@.term,
    {
        self.term
    }

    /// Takes down the vote of `from`. Only the first vote of a voter counts:
    /// a second vote, or one from outside the voters, changes nothing.
    pub fn vote(&mut self, from: NodeId, granted: bool)
        requires
            old(self).wf(),
        ensures
            final(self).wf(),
            final(self)@ == recorded(old(self)@, from, granted),
    {
        proof {
            lemma_recorded_wf(self@, from, granted);
        }
        if contains_id(&self.voters, from) && !contains_id(&self.granted, from) && !contains_id(
            &self.denied,
            from,
        ) {
            if granted {
                self.granted.push(from);
            } else {
                self.denied.push(from);
            }
        }
    }

    /// Where the election stands: elected once a quorum granted, defeated
    /// once more than the rest denied, voting otherwise.
    pub fn election_status(&self) -> (s: ElectionStatus)
        ensures
            s == status(self@),
    {
        let n: u128 = self.voters.len() as u128;
        let q: u128 = n / 2 + 1;
        if self.granted.len() as u128 >= q {
            ElectionStatus::Elected
        } else if self.denied.len() as u128 + q > n {
            ElectionStatus::Defeated
        } else {
            ElectionStatus::Voting
        }
    }

    /// Clears the tallies.
    pub fn reset(&mut self)
        ensures
            final(self)@ == cleared(old(self)@),
    {
        self.granted = Vec::new();
        self.denied = Vec::new();
    }
}

} // verus!
