//! The in-memory log: the entries that follow a compacted prefix.
use vstd::prelude::*;

use crate::types;
use crate::types::{Index, LogEntry, LogEntryV, Term};

verus! {

/// The entries of a log after the prefix that a snapshot stands for.
#[derive(Debug)]
pub struct MemLog {
    pub base_index: Index,
    pub base_term: Term,
    pub entries: Vec<LogEntry>,
}

/// A [`MemLog`] over the views of its entries.
#[verifier::ext_equal]
pub struct MemLogV {
    pub base_index: Index,
    pub base_term: Term,
    pub entries: Seq<LogEntryV>,
}

/// Entries whose indexes count up by one from `first`.
pub open spec fn contiguous(entries: Seq<LogEntryV>, first: int) -> bool {
    forall|k: int| 0 <= k < entries.len() ==> (#[trigger] entries[k]).index == first + k
}

impl View for MemLog {
    type V = MemLogV;

    open spec fn view(&self) -> MemLogV {
        MemLogV {
            base_index: self.base_index,
            base_term: self.base_term,
            entries: types::entry_views(self.entries@),
        }
    }
}

impl MemLogV {
    /// The log that holds nothing.
    pub open spec fn empty() -> MemLogV {
        MemLogV { base_index: 0, base_term: 0, entries: Seq::empty() }
    }

    /// The entries count up by one from the first index after the base, and
    /// the last index is a machine integer.
    pub open spec fn wf(self) -> bool {
        &&& self.base_index + self.entries.len() <= u64::MAX
        &&& contiguous(self.entries, self.base_index + 1)
    }

    /// The index of the last entry, or of the base where there is none.
    pub open spec fn last_index(self) -> Index {
        if self.entries.len() == 0 {
            self.base_index
        } else {
            self.entries.last().index
        }
    }

    /// The term of the last entry, or of the base where there is none.
    pub open spec fn last_term(self) -> Term {
        if self.entries.len() == 0 {
            self.base_term
        } else {
            self.entries.last().term
        }
    }

    /// The entry at an index after the base.
    pub open spec fn get(self, index: Index) -> Option<LogEntryV> {
        if self.base_index < index <= self.base_index + self.entries.len() {
            Some(self.entries[index - self.base_index - 1])
        } else {
            None
        }
    }

    /// The term at an index, the base included where there is one.
    pub open spec fn term_at(self, index: Index) -> Option<Term> {
        if index == self.base_index && self.base_index > 0 {
            Some(self.base_term)
        } else {
            match self.get(index) {
                Some(entry) => Some(entry.term),
                None => None,
            }
        }
    }

    /// How many entries stand before `index`.
    pub open spec fn before(self, index: Index) -> int {
        if index <= self.base_index + 1 {
            0
        } else if index - self.base_index - 1 >= self.entries.len() {
            self.entries.len() as int
        } else {
            index - self.base_index - 1
        }
    }

    /// The entries at `index` and after it.
    pub open spec fn entries_from(self, index: Index) -> Seq<LogEntryV> {
        self.entries.skip(self.before(index))
    }

    /// The log with more entries at its end.
    pub open spec fn appended(self, entries: Seq<LogEntryV>) -> MemLogV {
        MemLogV { entries: self.entries + entries, ..self }
    }

    /// The log without the entries at `index` and after it.
    pub open spec fn truncated_from(self, index: Index) -> MemLogV {
        MemLogV { entries: self.entries.take(self.before(index)), ..self }
    }

    /// The log with everything through `index` compacted away. A snapshot
    /// older than the base changes nothing.
    pub open spec fn compacted(self, index: Index, term: Term) -> MemLogV {
        if index < self.base_index {
            self
        } else if index >= self.last_index() {
            MemLogV { base_index: index, base_term: term, entries: Seq::empty() }
        } else {
            MemLogV {
                base_index: index,
                base_term: term,
                entries: self.entries.skip(index - self.base_index),
            }
        }
    }
}

impl Default for MemLog {
    fn default() -> (r: Self)
        ensures
            r@ == MemLogV::empty(),
            r@.wf(),
    {
        let r = MemLog { base_index: 0, base_term: 0, entries: Vec::new() };
        assert(r@ =~= MemLogV::empty());
        r
    }
}

/// A copy of the entries from position `from` on.
pub fn copy_entries(entries: &Vec<LogEntry>, from: usize) -> (r: Vec<LogEntry>)
    requires
        from <= entries@.len(),
    ensures
        r@ == entries@.skip(from as int),
        types::entry_views(r@) == types::entry_views(entries@).skip(from as int),
{
    let mut r: Vec<LogEntry> = Vec::new();
    let mut i: usize = from;
    while i < entries.len()
        invariant
            from <= i <= entries@.len(),
            r@ == entries@.subrange(from as int, i as int),
        decreases entries@.len() - i,
    {
        r.push(entries[i].clone());
        assert(r@ =~= entries@.subrange(from as int, i + 1));
        i += 1;
    }
    assert(r@ =~= entries@.skip(from as int));
    assert(types::entry_views(r@) =~= types::entry_views(entries@).skip(from as int));
    r
}

impl Clone for MemLog {
    fn clone(&self) -> (r: Self)
        ensures
            r@ == self@,
    {
        let r = MemLog {
            base_index: self.base_index,
            base_term: self.base_term,
            entries: copy_entries(&self.entries, 0),
        };
        assert(r@ =~= self@);
        r
    }
}

impl MemLog {
    /// Appends the entry that follows the last one.
    pub fn append(&mut self, entry: LogEntry)
        requires
            old(self)@.wf(),
            entry.index == old(self)@.last_index() + 1,
        ensures
            final(self)@.wf(),
            final(self)@ == old(self)@.appended(seq![entry@]),
    {
        let ghost before = self@;
        let ghost e = entry@;
        self.entries.push(entry);
        assert(self@ =~= before.appended(seq![e]));
    }

    /// Appends entries that follow the last one and each other.
    pub fn append_entries(&mut self, entries: Vec<LogEntry>)
        requires
            old(self)@.wf(),
            old(self)@.last_index() + entries@.len() <= u64::MAX,
            contiguous(types::entry_views(entries@), old(self)@.last_index() + 1),
        ensures
            final(self)@.wf(),
            final(self)@ == old(self)@.appended(types::entry_views(entries@)),
    {
        let mut entries = entries;
        let ghost all = types::entry_views(entries@);
        let ghost before = self@;
        let mut i: usize = 0;
        while i < entries.len()
            invariant
                i <= entries@.len(),
                self@.wf(),
                before.wf(),
                all == types::entry_views(entries@),
                before.last_index() + entries@.len() <= u64::MAX,
                contiguous(all, before.last_index() + 1),
                self@ == before.appended(all.take(i as int)),
            decreases entries@.len() - i,
        {
            assert(entries@[i as int]@ == all[i as int]);
            assert(self@.last_index() == before.last_index() + i);
            self.append(entries[i].clone());
            assert(self@ =~= before.appended(all.take(i + 1)));
            i += 1;
        }
        assert(all.take(i as int) =~= all);
    }

    pub fn last_index(&self) -> (r: Index)
        ensures
            r == self@.last_index(),
    {
        let n: usize = self.entries.len();
        if n == 0 {
            self.base_index
        } else {
            self.entries[n - 1].index
        }
    }

    pub fn last_term(&self) -> (r: Term)
        ensures
            r == self@.last_term(),
    {
        let n: usize = self.entries.len();
        if n == 0 {
            self.base_term
        } else {
            self.entries[n - 1].term
        }
    }

    pub fn base_index(&self) -> (r: Index)
        ensures
            r == self@.base_index,
    {
        self.base_index
    }

    pub fn base_term(&self) -> (r: Term)
        ensures
            r == self@.base_term,
    {
        self.base_term
    }

    /// The entry at `index`, unless it was compacted or never written.
    pub fn get(&self, index: Index) -> (r: Option<&LogEntry>)
        ensures
            r is Some <==> self@.get(index) is Some,
            r matches Some(entry) ==> Some(entry@) == self@.get(index),
    {
        if index <= self.base_index {
            return None;
        }
        let offset: u64 = index - self.base_index - 1;
        if offset < self.entries.len() as u64 {
            Some(&self.entries[offset as usize])
        } else {
            None
        }
    }

    /// The term at `index`, known for the base as well.
    pub fn term_at(&self, index: Index) -> (r: Option<Term>)
        ensures
            r == self@.term_at(index),
    {
        if index == self.base_index && self.base_index > 0 {
            return Some(self.base_term);
        }
        match self.get(index) {
            Some(entry) => Some(entry.term),
            None => None,
        }
    }

    fn position_of(&self, index: Index) -> (r: usize)
        ensures
            r == self@.before(index),
    {
        if index <= self.base_index || index - self.base_index - 1 == 0 {
            return 0;
        }
        let offset: u64 = index - self.base_index - 1;
        if offset < self.entries.len() as u64 {
            offset as usize
        } else {
            self.entries.len()
        }
    }

    /// The entries at `index` and after it.
    pub fn entries_from(&self, index: Index) -> (r: Vec<LogEntry>)
        ensures
            types::entry_views(r@) == self@.entries_from(index),
    {
        copy_entries(&self.entries, self.position_of(index))
    }

    /// Drops the entries at `index` and after it.
    pub fn truncate_from(&mut self, index: Index)
        ensures
            final(self)@ == old(self)@.truncated_from(index),
            old(self)@.wf() ==> final(self)@.wf(),
    {
        let ghost before = self@;
        let keep: usize = self.position_of(index);
        self.entries.truncate(keep);
        assert(self@ =~= before.truncated_from(index));
    }

    /// Compacts everything through `last_included_index` away.
    pub fn install_snapshot(&mut self, last_included_index: Index, last_included_term: Term)
        requires
            old(self)@.wf(),
        ensures
            final(self)@ == old(self)@.compacted(last_included_index, last_included_term),
            final(self)@.wf(),
    {
        let ghost before = self@;
        if last_included_index < self.base_index {
            return;
        }
        if last_included_index >= self.last_index() {
            self.entries.clear();
        } else {
            let drain_count: usize = (last_included_index - self.base_index) as usize;
            let rest = copy_entries(&self.entries, drain_count);
            self.entries = rest;
        }
        self.base_index = last_included_index;
        self.base_term = last_included_term;
        assert(self@ =~= before.compacted(last_included_index, last_included_term));
    }

    pub fn len(&self) -> (r: usize)
        ensures
            r == self@.entries.len(),
    {
        self.entries.len()
    }

    pub fn is_empty(&self) -> (r: bool)
        ensures
            r == (self@.entries.len() == 0),
    {
        self.entries.len() == 0
    }
}

/// What was appended is what is read back: the log that gained entries holds
/// them from the index after its old end, and everything before unchanged.
pub proof fn appended_entries_are_read_back(log: MemLogV, entries: Seq<LogEntryV>, index: Index)
    requires
        log.wf(),
        log.last_index() + entries.len() <= u64::MAX,
        contiguous(entries, log.last_index() + 1),
    ensures
        log.appended(entries).wf(),
        log.appended(entries).last_index() == log.last_index() + entries.len(),
        index <= log.last_index() ==> log.appended(entries).get(index) == log.get(index),
        log.last_index() < index <= log.last_index() + entries.len() ==> log.appended(entries).get(
            index,
        ) == Some(entries[index - log.last_index() - 1]),
        log.last_index() < u64::MAX ==> log.appended(entries).entries_from(
            (log.last_index() + 1) as u64,
        ) == entries,
{
    if log.last_index() < u64::MAX {
        assert(log.appended(entries).entries_from((log.last_index() + 1) as u64) =~= entries);
    }
}

/// Compacting keeps every later entry, and answers the term of the index
/// compacted through.
pub proof fn compaction_keeps_the_suffix(log: MemLogV, through: Index, term: Term, index: Index)
    requires
        log.wf(),
        log.base_index <= through,
    ensures
        log.compacted(through, term).wf(),
        through < index ==> log.compacted(through, term).get(index) == log.get(index),
        index <= through ==> log.compacted(through, term).get(index) is None,
        through > 0 ==> log.compacted(through, term).term_at(through) == Some(term),
{
}

/// Truncating keeps exactly the entries before the given index.
pub proof fn truncation_keeps_the_prefix(log: MemLogV, from: Index, index: Index)
    requires
        log.wf(),
    ensures
        log.truncated_from(from).wf(),
        index < from ==> log.truncated_from(from).get(index) == log.get(index),
        from <= index ==> log.truncated_from(from).get(index) is None,
{
}

/// A log ends with its last entry, and with what was compacted where it has none.
pub proof fn logs_end_with_their_last_entry(log: MemLogV)
    requires
        log.wf(),
    ensures
        log.entries.len() > 0 ==> log.last_index() == log.entries[log.entries.len() - 1].index
            && log.last_term() == log.entries[log.entries.len() - 1].term,
        log.entries.len() == 0 ==> log.last_index() == log.base_index && log.last_term()
            == log.base_term,
        log.last_index() == log.base_index + log.entries.len(),
        log.last_index() > 0 ==> log.term_at(log.last_index()) == Some(log.last_term())
            || log.base_index == 0 && log.entries.len() == 0,
{
}

/// An index after the base and through the last one finds the entry that has it,
/// and its term; any other finds no entry, and a term only at the base.
pub proof fn indexes_find_their_entry(log: MemLogV, index: Index)
    requires
        log.wf(),
    ensures
        log.get(index) is Some <==> log.base_index < index && index <= log.base_index
            + log.entries.len(),
        log.get(index) matches Some(entry) ==> entry.index == index && log.entries.contains(entry)
            && log.term_at(index) == Some(entry.term),
        index == log.base_index && index > 0 ==> log.term_at(index) == Some(log.base_term),
        index < log.base_index || index == 0 || index > log.base_index + log.entries.len()
            ==> log.term_at(index) is None,
{
}

/// The entries from an index on are all that have that index or a greater one,
/// in order.
pub proof fn the_rest_of_a_log(log: MemLogV, index: Index, k: int)
    requires
        log.wf(),
    ensures
        forall|entry: LogEntryV| #[trigger]
            log.entries_from(index).contains(entry) <==> log.entries.contains(entry) && entry.index
                >= index,
        0 <= k < log.entries_from(index).len() ==> log.entries_from(index)[k].index == k + (if index
            > log.base_index {
            index as int
        } else {
            log.base_index + 1
        }),
        log.truncated_from(index).entries + log.entries_from(index) == log.entries,
{
    let at = log.before(index);
    let rest = log.entries_from(index);
    assert(log.entries.take(at) + rest =~= log.entries);
    assert forall|entry: LogEntryV| #[trigger] rest.contains(entry) <==> log.entries.contains(entry)
        && entry.index >= index by {
        if rest.contains(entry) {
            let j = choose|j: int| 0 <= j < rest.len() && rest[j] == entry;
            assert(log.entries[at + j] == entry);
        }
        if log.entries.contains(entry) && entry.index >= index {
            let j = choose|j: int| 0 <= j < log.entries.len() && log.entries[j] == entry;
            assert(rest[j - at] == entry);
        }
    }
    if 0 <= k < rest.len() {
        assert(rest[k] == log.entries[at + k]);
    }
}

/// Compacting leaves the log to begin where it was compacted through, with the
/// given term, and drops nothing else; through an index before the base it
/// changes nothing.
pub proof fn compaction_moves_the_base(log: MemLogV, through: Index, term: Term)
    requires
        log.wf(),
    ensures
        through < log.base_index ==> log.compacted(through, term) == log,
        through >= log.base_index ==> log.compacted(through, term).base_index == through
            && log.compacted(through, term).base_term == term,
        through >= log.base_index ==> log.compacted(through, term).last_index() == if through
            > log.last_index() {
            through
        } else {
            log.last_index()
        },
        through >= log.last_index() ==> log.compacted(through, term).entries.len() == 0,
{
}

} // verus!
