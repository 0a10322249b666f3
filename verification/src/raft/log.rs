//! The in-memory raft log of one region: a dummy entry standing for the
//! compacted prefix, followed by the entries appended since.
use vstd::prelude::*;
use crate::raft::router::copy_bytes;

verus! {

#[derive(Debug, Clone)]
pub struct LogEntry {
    pub index: u64,
    pub term: u64,
    pub entry_type: i32,
    pub data: Vec<u8>,
    pub context: Vec<u8>,
}

pub struct LogEntryView {
    pub index: u64,
    pub term: u64,
    pub entry_type: i32,
    pub data: Seq<u8>,
    pub context: Seq<u8>,
}

impl View for LogEntry {
    type V = LogEntryView;

    open spec fn view(&self) -> LogEntryView {
        LogEntryView {
            index: self.index,
            term: self.term,
            entry_type: self.entry_type,
            data: self.data@,
            context: self.context@,
        }
    }
}

impl LogEntry {
    /// A copy of this entry.
    pub fn duplicate(&self) -> (e: Self)
        ensures
            e@ == self@,
    {
        LogEntry {
            index: self.index,
            term: self.term,
            entry_type: self.entry_type,
            data: copy_bytes(&self.data),
            context: copy_bytes(&self.context),
        }
    }
}

#[derive(Debug, Clone, Copy, PartialEq, Eq, Structural)]
pub enum LogError {
    /// The requested index lies before the first retained entry.
    Compacted,
    /// The requested index lies after the last entry.
    Unavailable,
}

pub struct RaftLog {
    entries: Vec<LogEntry>,
}

impl RaftLog {
    #[verifier::type_invariant]
    spec fn never_empty(self) -> bool {
        self.entries@.len() > 0
    }
}

impl View for RaftLog {
    type V = Seq<LogEntryView>;

    closed spec fn view(&self) -> Seq<LogEntryView> {
        self.entries@.map_values(|e: LogEntry| e@)
    }
}

/// The dummy entry at index 0, term 0, that a log without entries starts from.
pub open spec fn dummy_entry() -> LogEntryView {
    LogEntryView { index: 0, term: 0, entry_type: 0, data: Seq::empty(), context: Seq::empty() }
}

/// The log after appending `new` (non-empty) whose first index is at or after the
/// log's first index: entries from that index on are replaced.
pub open spec fn spec_append(log: Seq<LogEntryView>, new: Seq<LogEntryView>) -> Seq<LogEntryView> {
    let diff = new[0].index - log[0].index;
    if diff < log.len() {
        log.take(diff) + new
    } else {
        log + new
    }
}

impl RaftLog {
    /// A log holding `entries`, or just the dummy entry when there are none.
    pub fn new(entries: Vec<LogEntry>) -> (log: Self)
        ensures
            entries@.len() == 0 ==> log@ == seq![dummy_entry()],
            entries@.len() > 0 ==> log@ == entries@.map_values(|e: LogEntry| e@),
    {
        let mut entries = entries;
        if entries.len() == 0 {
            entries.push(LogEntry {
                index: 0,
                term: 0,
                entry_type: 0,
                data: Vec::new(),
                context: Vec::new(),
            });
            let ghost v = entries@.map_values(|e: LogEntry| e@);
            assert(v =~= seq![dummy_entry()]);
        }
        RaftLog { entries }
    }

    pub fn len(&self) -> (n: usize)
        ensures
            n == self@.len(),
            n > 0,
    {
        proof {
            use_type_invariant(self);
        }
        self.entries.len()
    }

    /// Appends `entries`, first dropping every entry at or after the first new index.
    pub fn append(&mut self, entries: &[LogEntry]) -> (r: Result<(), LogError>)
        ensures
            entries@.len() == 0 ==> r is Ok && final(self)@ == old(self)@,
            entries@.len() > 0 && entries@[0].index < old(self)@[0].index ==> r == Err::<
                (),
                LogError,
            >(LogError::Compacted) && final(self)@ == old(self)@,
            entries@.len() > 0 && entries@[0].index >= old(self)@[0].index ==> r is Ok
                && final(self)@ == spec_append(
                old(self)@,
                entries@.map_values(|e: LogEntry| e@),
            ),
    {
        proof {
            use_type_invariant(&*self);
        }
        if entries.len() == 0 {
            return Ok(());
        }
        let first_new_idx = entries[0].index;
        let base_idx = self.entries[0].index;
        if first_new_idx < base_idx {
            return Err(LogError::Compacted);
        }
        let ghost old_view = self@;
        let ghost new_view = entries@.map_values(|e: LogEntry| e@);
        let diff = first_new_idx - base_idx;
        let mut kept: Vec<LogEntry> = Vec::new();
        kept.push(LogEntry { index: 0, term: 0, entry_type: 0, data: Vec::new(), context: Vec::new() });
        std::mem::swap(&mut kept, &mut self.entries);
        assert(kept@.map_values(|e: LogEntry| e@) == old_view);
        if diff < kept.len() as u64 {
            kept.truncate(diff as usize);
        }
        let ghost before = kept@;
        let mut i: usize = 0;
        while i < entries.len()
            invariant
                i <= entries@.len(),
                kept@.len() == before.len() + i,
                forall|j: int| 0 <= j < before.len() ==> kept@[j] == before[j],
                forall|j: int| 0 <= j < i ==> kept@[before.len() + j]@ == entries@[j]@,
            decreases entries@.len() - i,
        {
            kept.push(entries[i].duplicate());
            i = i + 1;
        }
        proof {
            let kv = kept@.map_values(|e: LogEntry| e@);
            let bv = before.map_values(|e: LogEntry| e@);
            assert(kv =~= bv + new_view);
            if diff < old_view.len() {
                assert(bv =~= old_view.take(diff as int));
            } else {
                assert(bv =~= old_view);
            }
        }
        self.entries = kept;
        Ok(())
    }

    /// The entries with indexes in `[low, high)`.
    pub fn entries(&self, low: u64, high: u64) -> (r: Result<Vec<LogEntry>, LogError>)
        requires
            low <= high,
            low >= self@[0].index && high <= self@.last().index + 1 ==> high - self@[0].index
                <= self@.len(),
        ensures
            low < self@[0].index ==> r == Err::<Vec<LogEntry>, LogError>(LogError::Compacted),
            low >= self@[0].index && high > self@.last().index + 1 ==> r == Err::<
                Vec<LogEntry>,
                LogError,
            >(LogError::Unavailable),
            low >= self@[0].index && high <= self@.last().index + 1 ==> (r matches Ok(v)
                && v@.map_values(|e: LogEntry| e@) == self@.subrange(
                low - self@[0].index,
                high - self@[0].index,
            )),
    {
        proof {
            use_type_invariant(self);
        }
        let first_idx = self.entries[0].index;
        if low < first_idx {
            return Err(LogError::Compacted);
        }
        let last_idx = self.entries[self.entries.len() - 1].index;
        if high > 0 && high - 1 > last_idx {
            return Err(LogError::Unavailable);
        }
        let start = (low - first_idx) as usize;
        let end = (high - first_idx) as usize;
        let mut out: Vec<LogEntry> = Vec::new();
        let mut i: usize = start;
        while i < end
            invariant
                start <= i <= end,
                end <= self.entries@.len(),
                out@.len() == i - start,
                forall|j: int| 0 <= j < i - start ==> out@[j]@ == self.entries@[start + j]@,
            decreases end - i,
        {
            out.push(self.entries[i].duplicate());
            i = i + 1;
        }
        assert(out@.map_values(|e: LogEntry| e@) =~= self@.subrange(start as int, end as int));
        Ok(out)
    }

    /// The term of the entry at `idx`.
    pub fn term(&self, idx: u64) -> (r: Result<u64, LogError>)
        ensures
            idx < self@[0].index ==> r == Err::<u64, LogError>(LogError::Compacted),
            idx >= self@[0].index && idx - self@[0].index >= self@.len() ==> r == Err::<
                u64,
                LogError,
            >(LogError::Unavailable),
            idx >= self@[0].index && idx - self@[0].index < self@.len() ==> r == Ok::<
                u64,
                LogError,
            >(self@[idx - self@[0].index].term),
    {
        proof {
            use_type_invariant(self);
        }
        let first_idx = self.entries[0].index;
        if idx < first_idx {
            return Err(LogError::Compacted);
        }
        let offset = idx - first_idx;
        if offset >= self.entries.len() as u64 {
            return Err(LogError::Unavailable);
        }
        Ok(self.entries[offset as usize].term)
    }

    /// One past the index of the dummy entry.
    pub fn first_index(&self) -> (i: u64)
        requires
            self@[0].index < u64::MAX,
        ensures
            i == self@[0].index + 1,
    {
        proof {
            use_type_invariant(self);
        }
        self.entries[0].index + 1
    }

    /// The index of the last entry.
    pub fn last_index(&self) -> (i: u64)
        ensures
            i == self@.last().index,
    {
        proof {
            use_type_invariant(self);
        }
        self.entries[self.entries.len() - 1].index
    }

    /// Index and term of the dummy entry, which a snapshot's metadata carries.
    pub fn snapshot_meta(&self) -> (m: (u64, u64))
        ensures
            m == (self@[0].index, self@[0].term),
    {
        proof {
            use_type_invariant(self);
        }
        (self.entries[0].index, self.entries[0].term)
    }
}

} // verus!
