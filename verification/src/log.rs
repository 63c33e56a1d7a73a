use vstd::prelude::*;
use crate::raft::{clone_entry, entries_model, Entry, EntryModel, LogIndex, Term};

verus! {

/// Why the log refused an operation.
#[derive(Clone, Copy, Debug, PartialEq, Eq, Structural)]
pub enum LogError {
    /// The entries offered do not continue the log index by index.
    NonContiguous,
    /// The cut would remove a committed entry.
    Committed,
    /// The range starts before the first entry of the log.
    OutOfRange,
}

/// A log is well formed when its entries are numbered 1, 2, 3, ... without
/// gaps and the index after the last one is still representable.
pub open spec fn log_wf(log: Seq<EntryModel>) -> bool {
    &&& log.len() < u64::MAX
    &&& forall|i: int| 0 <= i < log.len() ==> (#[trigger] log[i]).index == i + 1
}

/// The term of the last entry, 0 for the empty log.
pub open spec fn last_term(log: Seq<EntryModel>) -> Term {
    if log.len() == 0 {
        0
    } else {
        log.last().term
    }
}

/// The term of the entry at `index`, if the log has one there.
pub open spec fn term_at(log: Seq<EntryModel>, index: LogIndex) -> Option<Term> {
    if 1 <= index <= log.len() {
        Some(log[index - 1].term)
    } else {
        None
    }
}

/// The entry at `index`, if the log has one there.
pub open spec fn entry_at(log: Seq<EntryModel>, index: LogIndex) -> Option<EntryModel> {
    if 1 <= index <= log.len() {
        Some(log[index - 1])
    } else {
        None
    }
}

/// `es` carries exactly the indices `last + 1 ..= last + es.len()`, and the
/// log stays within what an index can represent.
pub open spec fn continues(last: int, es: Seq<EntryModel>) -> bool {
    &&& last + es.len() < u64::MAX
    &&& forall|k: int| 0 <= k < es.len() ==> (#[trigger] es[k]).index == last + 1 + k
}

/// The entries with `from <= index < to`, for `from >= 1`.
pub open spec fn range_of(log: Seq<EntryModel>, from: LogIndex, to: LogIndex) -> Seq<EntryModel> {
    let lo = if from - 1 <= log.len() {
        from - 1
    } else {
        log.len() as int
    };
    let end = if to - 1 <= log.len() {
        to - 1
    } else {
        log.len() as int
    };
    let hi = if end < lo {
        lo
    } else {
        end
    };
    log.subrange(lo, hi)
}

/// Whether removing every entry with index at least `index` would remove an
/// entry at or below `commit_index`.
pub open spec fn cuts_committed(index: LogIndex, commit_index: LogIndex) -> bool {
    commit_index >= 1 && index <= commit_index
}

/// The log cut so that only entries with index below `index` remain.
pub open spec fn truncated(log: Seq<EntryModel>, index: LogIndex) -> Seq<EntryModel> {
    if index == 0 {
        Seq::empty()
    } else if index - 1 <= log.len() {
        log.subrange(0, index - 1)
    } else {
        log
    }
}

/// Whether `entries` carries exactly the indices `last + 1`, `last + 2`,
/// ... and ends below the largest index.
pub fn numbered_from(last: LogIndex, entries: &Vec<Entry>) -> (ok: bool)
    ensures
        ok == continues(last as int, entries_model(entries@)),
{
    if entries.len() as u64 >= u64::MAX - last {
        return false;
    }
    let mut k: usize = 0;
    while k < entries.len()
        invariant
            k <= entries.len(),
            last + entries.len() < u64::MAX,
            forall|j: int|
                0 <= j < k ==> (#[trigger] entries_model(entries@)[j]).index == last + 1 + j,
        decreases entries.len() - k,
    {
        if entries[k].index != last + 1 + k as u64 {
            assert(entries_model(entries@)[k as int].index != last + 1 + k);
            return false;
        }
        k += 1;
    }
    true
}

/// Ordered sequence of entries with term metadata.
#[derive(Debug)]
pub struct Log {
    entries: Vec<Entry>,
}

impl View for Log {
    type V = Seq<EntryModel>;

    closed spec fn view(&self) -> Seq<EntryModel> {
        entries_model(self.entries@)
    }
}

impl Log {
    /// Whether the entries are numbered without gaps from 1.
    pub open spec fn wf(&self) -> bool {
        log_wf(self@)
    }

    /// The empty log.
    pub fn new() -> (log: Log)
        ensures
            log@ == Seq::<EntryModel>::empty(),
            log.wf(),
    {
        let log = Log { entries: Vec::new() };
        assert(log@ =~= Seq::<EntryModel>::empty());
        log
    }

    /// The index of the last entry, 0 for the empty log.
    pub fn last_index(&self) -> (index: LogIndex)
        ensures
            index == self@.len(),
    {
        self.entries.len() as u64
    }

    /// The term of the last entry, 0 for the empty log.
    pub fn last_term(&self) -> (term: Term)
        ensures
            term == last_term(self@),
    {
        let n = self.entries.len();
        if n == 0 {
            0
        } else {
            self.entries[n - 1].term
        }
    }

    /// The term of the entry at `index`, if there is one.
    pub fn term_at(&self, index: LogIndex) -> (term: Option<Term>)
        ensures
            term == term_at(self@, index),
    {
        if index >= 1 && index - 1 < self.entries.len() as u64 {
            Some(self.entries[(index - 1) as usize].term)
        } else {
            None
        }
    }

    /// A copy of the entry at `index`, if there is one.
    pub fn entry_at(&self, index: LogIndex) -> (entry: Option<Entry>)
        ensures
            entry is Some == entry_at(self@, index) is Some,
            entry matches Some(e) ==> Some(e@) == entry_at(self@, index),
    {
        if index >= 1 && index - 1 < self.entries.len() as u64 {
            Some(clone_entry(&self.entries[(index - 1) as usize]))
        } else {
            None
        }
    }

    /// Whether `entries` carries exactly the indices that follow the log.
    pub fn accepts(&self, entries: &Vec<Entry>) -> (ok: bool)
        ensures
            ok == continues(self@.len() as int, entries_model(entries@)),
    {
        numbered_from(self.entries.len() as u64, entries)
    }

    /// Appends `entries`, whose indices must be exactly
    /// `last_index + 1 ..= last_index + k`; anything else is refused and
    /// leaves the log as it was.
    pub fn append(&mut self, entries: Vec<Entry>) -> (r: Result<(), LogError>)
        requires
            old(self).wf(),
        ensures
            final(self).wf(),
            continues(old(self)@.len() as int, entries_model(entries@)) ==> r is Ok && final(self)@
                == old(self)@ + entries_model(entries@),
            !continues(old(self)@.len() as int, entries_model(entries@)) ==> r == Err::<
                (),
                LogError,
            >(LogError::NonContiguous) && final(self)@ == old(self)@,
    {
        if !self.accepts(&entries) {
            return Err(LogError::NonContiguous);
        }
        let mut entries = entries;
        let ghost before = self@;
        let ghost added = entries_model(entries@);
        self.entries.append(&mut entries);
        assert(self@ =~= before + added);
        Ok(())
    }

    /// Removes every entry with index at least `index`. Refused, with the
    /// log left as it was, when that would remove an entry at or below
    /// `commit_index`.
    pub fn truncate_from(&mut self, index: LogIndex, commit_index: LogIndex) -> (r: Result<
        (),
        LogError,
    >)
        requires
            old(self).wf(),
        ensures
            final(self).wf(),
            cuts_committed(index, commit_index) ==> r == Err::<(), LogError>(LogError::Committed)
                && final(self)@ == old(self)@,
            !cuts_committed(index, commit_index) ==> r is Ok && final(self)@ == truncated(
                old(self)@,
                index,
            ),
    {
        if commit_index >= 1 && index <= commit_index {
            return Err(LogError::Committed);
        }
        let ghost before = self@;
        if index == 0 {
            self.entries.truncate(0);
        } else if index - 1 <= self.entries.len() as u64 {
            self.entries.truncate((index - 1) as usize);
        }
        assert(self@ =~= truncated(before, index));
        Ok(())
    }

    /// Copies of the entries with `from <= index < to`, in order. Empty when
    /// the range is empty; refused when `from` is 0, which lies before the
    /// first entry.
    pub fn range(&self, from: LogIndex, to: LogIndex) -> (r: Result<Vec<Entry>, LogError>)
        ensures
            from == 0 ==> r == Err::<Vec<Entry>, LogError>(LogError::OutOfRange),
            from >= 1 ==> r is Ok && entries_model(r->Ok_0@) == range_of(self@, from, to),
    {
        if from == 0 {
            return Err(LogError::OutOfRange);
        }
        let len = self.entries.len();
        let lo: usize = if from - 1 <= len as u64 {
            (from - 1) as usize
        } else {
            len
        };
        let end: usize = if to >= 1 && to - 1 <= len as u64 {
            (to - 1) as usize
        } else if to == 0 {
            0
        } else {
            len
        };
        let hi: usize = if end < lo {
            lo
        } else {
            end
        };
        let mut out: Vec<Entry> = Vec::new();
        let mut i: usize = lo;
        while i < hi
            invariant
                lo <= i <= hi <= self.entries.len(),
                out.len() == i - lo,
                forall|j: int| 0 <= j < out.len() ==> out@[j]@ == self.entries@[lo + j]@,
            decreases hi - i,
        {
            out.push(clone_entry(&self.entries[i]));
            i += 1;
        }
        assert(entries_model(out@) =~= range_of(self@, from, to));
        Ok(out)
    }
}

} // verus!
