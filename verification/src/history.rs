//! The most recent solves, newest first.

use vstd::prelude::*;

verus! {

/// One solve: the file that was solved, when, by which solver, and how many deductions it
/// made.
#[derive(Debug, Clone)]
pub struct HistoryEntry {
    pub file_path: String,
    pub timestamp: String,
    pub solver_mode: String,
    pub deductions_count: usize,
}

/// Most entries that a history keeps.
pub const MAX_ENTRIES: usize = 20;

/// The most recent solves, newest first; the oldest leaves when there are more than
/// [`MAX_ENTRIES`].
#[derive(Debug, Clone)]
pub struct History {
    pub entries: Vec<HistoryEntry>,
}

/// The first `count` entries of `entries`, or all of them where there are fewer.
pub open spec fn first_entries(entries: Seq<HistoryEntry>, count: int) -> Seq<HistoryEntry> {
    if count < entries.len() {
        entries.take(count)
    } else {
        entries
    }
}

/// A copy of `entry`.
pub fn copy_entry(entry: &HistoryEntry) -> (copy: HistoryEntry)
    ensures
        copy == *entry,
{
    HistoryEntry {
        file_path: entry.file_path.clone(),
        timestamp: entry.timestamp.clone(),
        solver_mode: entry.solver_mode.clone(),
        deductions_count: entry.deductions_count,
    }
}

impl History {
    /// Makes an empty history.
    pub fn new() -> (history: History)
        ensures
            history.entries@ == Seq::<HistoryEntry>::empty(),
    {
        History { entries: Vec::new() }
    }

    /// Puts `entry` first and drops what does not fit any more.
    pub fn add_entry(&mut self, entry: HistoryEntry)
        ensures
            final(self).entries@ == first_entries(
                old(self).entries@.insert(0, entry),
                MAX_ENTRIES as int,
            ),
    {
        self.entries.insert(0, entry);
        if self.entries.len() > MAX_ENTRIES {
            self.entries.truncate(MAX_ENTRIES);
        }
    }

    /// Copies of the `count` newest entries, newest first; of all entries where there are
    /// fewer.
    pub fn get_recent(&self, count: usize) -> (recent: Vec<HistoryEntry>)
        ensures
            recent@ == first_entries(self.entries@, count as int),
    {
        let mut recent: Vec<HistoryEntry> = Vec::new();
        let mut i: usize = 0;
        while i < count && i < self.entries.len()
            invariant
                i <= count,
                i <= self.entries@.len(),
                recent@ == self.entries@.take(i as int),
            decreases self.entries@.len() - i,
        {
            recent.push(copy_entry(&self.entries[i]));
            assert(recent@ =~= self.entries@.take(i + 1));
            i += 1;
        }
        assert(self.entries@.take(self.entries@.len() as int) =~= self.entries@);
        recent
    }

    /// Drops every entry.
    pub fn clear(&mut self)
        ensures
            final(self).entries@ == Seq::<HistoryEntry>::empty(),
    {
        self.entries.clear();
    }
}

impl Default for History {
    fn default() -> (history: History)
        ensures
            history.entries@ == Seq::<HistoryEntry>::empty(),
    {
        History::new()
    }
}

} // verus!
