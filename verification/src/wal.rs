//! A write-ahead log and the files beside it, held as their contents, and the
//! recovery of a node from them.
//!
//! A [`Wal`] is the image of four files: the log, the commit index, the term
//! and vote, and the snapshot. A file that does not exist and an empty file
//! read alike, so an absent file is an empty one here. Every change is made to
//! the image; moving images to and from a disk is the caller's business.
use vstd::prelude::*;

use crate::memlog;
use crate::memlog::{MemLog, MemLogV};
use crate::snapshot_codec;
use crate::snapshot_codec::{
    decode_commit_index, decode_meta, decode_snapshot, encode_commit_index, encode_meta,
    encode_snapshot, PersistentRaftMeta, SnapshotData, SnapshotDataV,
};
use crate::state_machine;
use crate::state_machine::{InMemoryStateMachine, KvMap};
use crate::text;
use crate::text::{decimal_text, join4};
use crate::types;
use crate::types::{DbError, DbErrorV, DbResult, Index, LogEntry, LogEntryV, NodeId, Term};
use crate::wal_codec;
use crate::wal_codec::{decode_entries, encode_log, validate_entry_sequence};

verus! {

/// The contents of a write-ahead log and of the files beside it.
#[derive(Debug, PartialEq, Eq)]
pub struct Wal {
    pub path: String,
    pub log: Vec<u8>,
    pub commit: Vec<u8>,
    pub meta: Vec<u8>,
    pub snapshot: Vec<u8>,
}

/// A [`Wal`] as sequences.
#[verifier::ext_equal]
pub struct WalV {
    pub path: Seq<char>,
    pub log: Seq<u8>,
    pub commit: Seq<u8>,
    pub meta: Seq<u8>,
    pub snapshot: Seq<u8>,
}

impl View for Wal {
    type V = WalV;

    open spec fn view(&self) -> WalV {
        WalV {
            path: self.path@,
            log: self.log@,
            commit: self.commit@,
            meta: self.meta@,
            snapshot: self.snapshot@,
        }
    }
}

/// The entries at or before an index, in order.
pub open spec fn entries_through(entries: Seq<LogEntryV>, last: Index) -> Seq<LogEntryV>
    decreases entries.len(),
{
    if entries.len() == 0 {
        Seq::empty()
    } else if entries.last().index <= last {
        entries_through(entries.drop_last(), last).push(entries.last())
    } else {
        entries_through(entries.drop_last(), last)
    }
}

/// The entries after an index, in order.
pub open spec fn entries_after(entries: Seq<LogEntryV>, through: Index) -> Seq<LogEntryV>
    decreases entries.len(),
{
    if entries.len() == 0 {
        Seq::empty()
    } else if entries.last().index > through {
        entries_after(entries.drop_last(), through).push(entries.last())
    } else {
        entries_after(entries.drop_last(), through)
    }
}

impl WalV {
    /// A log at `path` none of whose files has any content.
    pub open spec fn blank(path: Seq<char>) -> WalV {
        WalV {
            path,
            log: Seq::empty(),
            commit: Seq::empty(),
            meta: Seq::empty(),
            snapshot: Seq::empty(),
        }
    }

    /// The records of the entries go to the end of the log, all or none.
    pub open spec fn append_batch(self, entries: Seq<LogEntryV>) -> (WalV, Result<(), DbErrorV>) {
        match wal_codec::log_error(entries) {
            Some(error) => (self, Err(error)),
            None => (WalV { log: self.log + wal_codec::log_bytes(entries), ..self }, Ok(())),
        }
    }

    /// The records of the entries replace the log. Its old contents are gone
    /// even where an entry has no record.
    pub open spec fn rewrite(self, entries: Seq<LogEntryV>) -> (WalV, Result<(), DbErrorV>) {
        match wal_codec::log_error(entries) {
            Some(error) => (WalV { log: Seq::empty(), ..self }, Err(error)),
            None => (WalV { log: wal_codec::log_bytes(entries), ..self }, Ok(())),
        }
    }

    pub open spec fn load(self) -> Result<Seq<LogEntryV>, DbErrorV> {
        wal_codec::loaded_log(self.log)
    }

    pub open spec fn load_commit_index(self) -> Result<Index, DbErrorV> {
        snapshot_codec::decoded_commit_index(self.commit)
    }

    pub open spec fn load_raft_meta(self) -> Result<PersistentRaftMeta, DbErrorV> {
        snapshot_codec::decoded_meta(self.meta)
    }

    pub open spec fn load_snapshot(self) -> Result<Option<SnapshotDataV>, DbErrorV> {
        snapshot_codec::decoded_snapshot(self.snapshot)
    }

    pub open spec fn persist_commit_index(self, index: Index) -> WalV {
        WalV { commit: crate::bytes::le64(index), ..self }
    }

    pub open spec fn persist_raft_meta(self, term: Term, vote: Option<NodeId>) -> WalV {
        WalV {
            meta: snapshot_codec::meta_bytes(
                PersistentRaftMeta { current_term: term, voted_for: vote },
            ),
            ..self
        }
    }

    /// The snapshot replaces the one before. That one is gone even where the
    /// new one has no file.
    pub open spec fn persist_snapshot(self, snapshot: SnapshotDataV) -> (
        WalV,
        Result<(), DbErrorV>,
    ) {
        match snapshot_codec::snapshot_error(snapshot) {
            Some(error) => (WalV { snapshot: Seq::empty(), ..self }, Err(error)),
            None => (
                WalV { snapshot: snapshot_codec::snapshot_bytes(snapshot), ..self },
                Ok(()),
            ),
        }
    }

    /// Only the entries at or before `last` stay in the log.
    pub open spec fn truncate_to(self, last: Index) -> (WalV, Result<(), DbErrorV>) {
        match self.load() {
            Err(error) => (self, Err(error)),
            Ok(entries) => self.rewrite(entries_through(entries, last)),
        }
    }

    /// Only the entries after `through` stay in the log.
    pub open spec fn truncate_prefix(self, through: Index) -> (WalV, Result<(), DbErrorV>) {
        match self.load() {
            Err(error) => (self, Err(error)),
            Ok(entries) => self.rewrite(entries_after(entries, through)),
        }
    }
}

impl Clone for Wal {
    fn clone(&self) -> (r: Self)
        ensures
            r@ == self@,
    {
        let r = Wal {
            path: self.path.clone(),
            log: crate::bytes::copy_range(self.log.as_slice(), 0, self.log.len()),
            commit: crate::bytes::copy_range(self.commit.as_slice(), 0, self.commit.len()),
            meta: crate::bytes::copy_range(self.meta.as_slice(), 0, self.meta.len()),
            snapshot: crate::bytes::copy_range(self.snapshot.as_slice(), 0, self.snapshot.len()),
        };
        assert(r@ =~= self@);
        r
    }
}

impl Wal {
    /// Opens a log at `path` whose files do not exist yet.
    pub fn open(path: String) -> (r: DbResult<Self>)
        ensures
            r matches Ok(wal) && wal@ == WalV::blank(path@),
    {
        let wal = Wal {
            path,
            log: Vec::new(),
            commit: Vec::new(),
            meta: Vec::new(),
            snapshot: Vec::new(),
        };
        assert(wal@ =~= WalV::blank(wal.path@));
        Ok(wal)
    }

    /// Where the log file lies.
    pub fn path(&self) -> (r: &str)
        ensures
            r@ == self@.path,
    {
        self.path.as_str()
    }

    /// Records one entry.
    pub fn append(&mut self, entry: &LogEntry) -> (r: DbResult<()>)
        ensures
            final(self)@ == old(self)@.append_batch(seq![entry@]).0,
            types::result_view(r) == old(self)@.append_batch(seq![entry@]).1,
    {
        let mut batch: Vec<LogEntry> = Vec::new();
        batch.push(entry.clone());
        assert(types::entry_views(batch@) =~= seq![entry@]);
        self.append_batch(batch.as_slice())
    }

    /// Records entries, all or none.
    pub fn append_batch(&mut self, entries: &[LogEntry]) -> (r: DbResult<()>)
        ensures
            final(self)@ == old(self)@.append_batch(types::entry_views(entries@)).0,
            types::result_view(r) == old(self)@.append_batch(types::entry_views(entries@)).1,
    {
        let encoded = match encode_log(entries) {
            Ok(encoded) => encoded,
            Err(error) => {
                return Err(error);
            },
        };
        crate::bytes::put_bytes(&mut self.log, encoded.as_slice());
        Ok(())
    }

    /// The recorded entries.
    pub fn load(&self) -> (r: DbResult<Vec<LogEntry>>)
        ensures
            match self@.load() {
                Ok(entries) => r matches Ok(found) && types::entry_views(found@) == entries,
                Err(error) => r matches Err(e) && e@ == error,
            },
    {
        let entries = match decode_entries(self.log.as_slice()) {
            Ok(entries) => entries,
            Err(error) => {
                return Err(error);
            },
        };
        match validate_entry_sequence(&entries) {
            Ok(()) => Ok(entries),
            Err(error) => Err(error),
        }
    }

    pub fn persist_commit_index(&mut self, commit_index: Index) -> (r: DbResult<()>)
        ensures
            final(self)@ == old(self)@.persist_commit_index(commit_index),
            r is Ok,
    {
        self.commit = encode_commit_index(commit_index);
        Ok(())
    }

    pub fn load_commit_index(&self) -> (r: DbResult<Index>)
        ensures
            types::result_view(r) == self@.load_commit_index(),
    {
        decode_commit_index(self.commit.as_slice())
    }

    pub fn persist_raft_meta(&mut self, current_term: Term, voted_for: Option<NodeId>) -> (r:
        DbResult<()>)
        ensures
            final(self)@ == old(self)@.persist_raft_meta(current_term, voted_for),
            r is Ok,
    {
        self.meta = encode_meta(current_term, voted_for);
        Ok(())
    }

    pub fn load_raft_meta(&self) -> (r: DbResult<PersistentRaftMeta>)
        ensures
            match self@.load_raft_meta() {
                Ok(meta) => r == Ok::<PersistentRaftMeta, DbError>(meta),
                Err(error) => r matches Err(e) && e@ == error,
            },
    {
        decode_meta(self.meta.as_slice())
    }

    pub fn persist_snapshot(&mut self, snapshot: &SnapshotData) -> (r: DbResult<()>)
        requires
            snapshot.wf(),
        ensures
            final(self)@ == old(self)@.persist_snapshot(snapshot@).0,
            types::result_view(r) == old(self)@.persist_snapshot(snapshot@).1,
    {
        match encode_snapshot(snapshot) {
            Ok(encoded) => {
                self.snapshot = encoded;
                Ok(())
            },
            Err(error) => {
                self.snapshot = Vec::new();
                assert(self.snapshot@ =~= Seq::<u8>::empty());
                Err(error)
            },
        }
    }

    pub fn load_snapshot(&self) -> (r: DbResult<Option<SnapshotData>>)
        ensures
            match self@.load_snapshot() {
                Ok(Some(snapshot)) => r matches Ok(Some(found)) && found@ == snapshot
                    && found.wf(),
                Ok(None) => r == Ok::<Option<SnapshotData>, DbError>(None),
                Err(error) => r matches Err(e) && e@ == error,
            },
    {
        decode_snapshot(self.snapshot.as_slice())
    }

    /// Drops the entries after `last_index`.
    pub fn truncate_to(&mut self, last_index: Index) -> (r: DbResult<()>)
        ensures
            final(self)@ == old(self)@.truncate_to(last_index).0,
            types::result_view(r) == old(self)@.truncate_to(last_index).1,
    {
        let entries = match self.load() {
            Ok(entries) => entries,
            Err(error) => {
                return Err(error);
            },
        };
        let ghost all = types::entry_views(entries@);
        let mut kept: Vec<LogEntry> = Vec::new();
        let mut i: usize = 0;
        assert(types::entry_views(kept@) =~= entries_through(all.take(0), last_index));
        while i < entries.len()
            invariant
                i <= entries@.len(),
                all == types::entry_views(entries@),
                types::entry_views(kept@) == entries_through(all.take(i as int), last_index),
            decreases entries@.len() - i,
        {
            let ghost before = types::entry_views(kept@);
            assert(all.take(i + 1).drop_last() =~= all.take(i as int));
            assert(all.take(i + 1).last() == entries@[i as int]@);
            if entries[i].index <= last_index {
                kept.push(entries[i].clone());
                assert(types::entry_views(kept@) =~= before.push(entries@[i as int]@));
            }
            i += 1;
        }
        assert(all.take(i as int) =~= all);
        self.rewrite(kept.as_slice())
    }

    /// Drops the entries at or before `through_index`.
    pub fn truncate_prefix(&mut self, through_index: Index) -> (r: DbResult<()>)
        ensures
            final(self)@ == old(self)@.truncate_prefix(through_index).0,
            types::result_view(r) == old(self)@.truncate_prefix(through_index).1,
    {
        let entries = match self.load() {
            Ok(entries) => entries,
            Err(error) => {
                return Err(error);
            },
        };
        let ghost all = types::entry_views(entries@);
        let mut kept: Vec<LogEntry> = Vec::new();
        let mut i: usize = 0;
        assert(types::entry_views(kept@) =~= entries_after(all.take(0), through_index));
        while i < entries.len()
            invariant
                i <= entries@.len(),
                all == types::entry_views(entries@),
                types::entry_views(kept@) == entries_after(all.take(i as int), through_index),
            decreases entries@.len() - i,
        {
            let ghost before = types::entry_views(kept@);
            assert(all.take(i + 1).drop_last() =~= all.take(i as int));
            assert(all.take(i + 1).last() == entries@[i as int]@);
            if entries[i].index > through_index {
                kept.push(entries[i].clone());
                assert(types::entry_views(kept@) =~= before.push(entries@[i as int]@));
            }
            i += 1;
        }
        assert(all.take(i as int) =~= all);
        self.rewrite(kept.as_slice())
    }

    fn rewrite(&mut self, entries: &[LogEntry]) -> (r: DbResult<()>)
        ensures
            final(self)@ == old(self)@.rewrite(types::entry_views(entries@)).0,
            types::result_view(r) == old(self)@.rewrite(types::entry_views(entries@)).1,
    {
        match encode_log(entries) {
            Ok(encoded) => {
                self.log = encoded;
                Ok(())
            },
            Err(error) => {
                self.log = Vec::new();
                assert(self.log@ =~= Seq::<u8>::empty());
                Err(error)
            },
        }
    }
}

/// Applies the command at `index` and returns the value that its key held
/// before.
pub fn apply_entry(
    log: &MemLog,
    state_machine: &mut InMemoryStateMachine,
    index: Index,
) -> (r: DbResult<Option<String>>)
    requires
        old(state_machine).wf(),
    ensures
        final(state_machine).wf(),
        match log@.get(index) {
            None => final(state_machine)@ == old(state_machine)@ && r == Err::<
                Option<String>,
                DbError,
            >(DbError::MissingLogEntry(index)),
            Some(entry) => {
                let held = state_machine::lookup(
                    old(state_machine)@,
                    state_machine::key_of(entry.command),
                );
                &&& final(state_machine)@ == state_machine::applied(
                    old(state_machine)@,
                    entry.command,
                )
                &&& r matches Ok(previous)
                &&& previous is Some <==> held is Some
                &&& previous matches Some(value) ==> held == Some(value@)
            },
        },
{
    match log.get(index) {
        Some(entry) => Ok(state_machine.apply(&entry.command)),
        None => Err(DbError::MissingLogEntry(index)),
    }
}

/// The log and state that a snapshot stands for, or nothing at all.
pub open spec fn snapshot_base(snapshot: Option<SnapshotDataV>) -> (MemLogV, KvMap) {
    match snapshot {
        Some(data) => (
            MemLogV::empty().compacted(data.last_included_index, data.last_included_term),
            data.state,
        ),
        None => (MemLogV::empty(), KvMap::empty()),
    }
}

/// The log and state of all recorded entries, committed or not.
pub open spec fn recovered_state(wal: WalV) -> Result<(MemLogV, KvMap), DbErrorV> {
    match wal.load() {
        Err(error) => Err(error),
        Ok(entries) => match wal.load_snapshot() {
            Err(error) => Err(error),
            Ok(snapshot) => Ok(
                (
                    snapshot_base(snapshot).0.appended(entries),
                    state_machine::replayed(snapshot_base(snapshot).1, entries),
                ),
            ),
        },
    }
}

/// The recorded entries, where there are any, begin right after the snapshot.
pub open spec fn follows_snapshot(wal: WalV) -> bool {
    match (wal.load(), wal.load_snapshot()) {
        (Ok(entries), Ok(snapshot)) => entries.len() > 0 ==> entries[0].index == snapshot_base(
            snapshot,
        ).0.base_index + 1,
        _ => true,
    }
}

/// The log, the committed state and the commit index that a node starts from.
#[verifier::opaque]
pub open spec fn recovered_node(wal: WalV) -> Result<(MemLogV, KvMap, Index), DbErrorV> {
    match wal.load() {
        Err(error) => Err(error),
        Ok(entries) => match wal.load_commit_index() {
            Err(error) => Err(error),
            Ok(persisted) => match wal.load_snapshot() {
                Err(error) => Err(error),
                Ok(snapshot) => {
                    let (log, state) = snapshot_base(snapshot);
                    let base = log.base_index;
                    let commit = if persisted >= base {
                        persisted
                    } else {
                        base
                    };
                    let last = log.appended(entries).last_index();
                    if entries.len() > 0 && entries[0].index != base + 1 {
                        Err(
                            wal_codec::corrupt(
                                "WAL after snapshot must start at index "@ + text::decimal(
                                    (base + 1) as nat,
                                ) + ", found "@ + text::decimal(entries[0].index as nat),
                            ),
                        )
                    } else if commit > last {
                        Err(
                            wal_codec::corrupt(
                                "commit-index metadata "@ + text::decimal(commit as nat)
                                    + " exceeds recovered log end "@ + text::decimal(last as nat),
                            ),
                        )
                    } else {
                        Ok(
                            (
                                log.appended(entries),
                                state_machine::replayed(
                                    state,
                                    entries.take((commit - base) as int),
                                ),
                                commit,
                            ),
                        )
                    }
                },
            },
        },
    }
}

/// Loaded entries count up by one from the first.
proof fn loaded_entries_are_contiguous(wal: WalV)
    requires
        wal.load() is Ok,
    ensures
        ({
            let entries = wal.load()->Ok_0;
            entries.len() > 0 ==> entries[0].index > 0 && memlog::contiguous(
                entries,
                entries[0].index as int,
            )
        }),
{
    wal_codec::accepted_sequences(wal.load()->Ok_0);
}

/// Contiguous entries after `base` end at `base` plus their number, which is a
/// machine integer.
proof fn contiguous_end(entries: Seq<LogEntryV>, base: Index)
    requires
        memlog::contiguous(entries, base + 1),
    ensures
        base + entries.len() <= u64::MAX,
        entries.len() > 0 ==> entries.last().index == base + entries.len(),
{
    if entries.len() > 0 {
        assert(entries[entries.len() - 1].index == base + entries.len());
    }
}

/// Puts recorded entries behind a log.
fn append_recorded(log: &mut MemLog, entries: &Vec<LogEntry>)
    requires
        old(log)@.wf(),
        old(log)@.entries.len() == 0,
        memlog::contiguous(types::entry_views(entries@), old(log)@.base_index + 1),
    ensures
        final(log)@.wf(),
        final(log)@ == old(log)@.appended(types::entry_views(entries@)),
{
    let ghost all = types::entry_views(entries@);
    let ghost base = log@;
    proof {
        contiguous_end(all, base.base_index);
    }
    let mut i: usize = 0;
    assert(base.appended(all.take(0)) =~= base);
    while i < entries.len()
        invariant
            i <= entries@.len(),
            all == types::entry_views(entries@),
            base.entries.len() == 0,
            base.base_index + all.len() <= u64::MAX,
            memlog::contiguous(all, base.base_index + 1),
            log@.wf(),
            log@ == base.appended(all.take(i as int)),
        decreases entries@.len() - i,
    {
        assert(all[i as int] == entries@[i as int]@);
        assert(all.take(i + 1).drop_last() =~= all.take(i as int));
        log.append(entries[i].clone());
        assert(log@ =~= base.appended(all.take(i + 1)));
        i += 1;
    }
    assert(all.take(i as int) =~= all);
}

/// Applies the first `count` of recorded entries.
fn apply_recorded(
    state_machine: &mut InMemoryStateMachine,
    entries: &Vec<LogEntry>,
    count: usize,
)
    requires
        old(state_machine).wf(),
        count <= entries@.len(),
    ensures
        final(state_machine).wf(),
        final(state_machine)@ == state_machine::replayed(
            old(state_machine)@,
            types::entry_views(entries@).take(count as int),
        ),
{
    let ghost all = types::entry_views(entries@);
    let ghost start = state_machine@;
    let mut i: usize = 0;
    while i < count
        invariant
            i <= count <= entries@.len(),
            all == types::entry_views(entries@),
            state_machine.wf(),
            state_machine@ == state_machine::replayed(start, all.take(i as int)),
        decreases count - i,
    {
        assert(all[i as int] == entries@[i as int]@);
        assert(all.take(i + 1).drop_last() =~= all.take(i as int));
        state_machine.apply(&entries[i].command);
        i += 1;
    }
}

/// Replays a snapshot and every recorded entry, committed or not.
pub fn recover_state_from_wal(wal: &Wal) -> (r: DbResult<(MemLog, InMemoryStateMachine)>)
    requires
        follows_snapshot(wal@),
    ensures
        match recovered_state(wal@) {
            Ok((log, state)) => r matches Ok(found) && found.0@ == log && found.1@ == state
                && found.0@.wf() && found.1.wf(),
            Err(error) => r matches Err(e) && e@ == error,
        },
{
    let entries = match wal.load() {
        Ok(entries) => entries,
        Err(error) => {
            return Err(error);
        },
    };
    let snapshot = match wal.load_snapshot() {
        Ok(snapshot) => snapshot,
        Err(error) => {
            return Err(error);
        },
    };
    let mut log = MemLog::default();
    let mut state_machine = InMemoryStateMachine::default();
    if let Some(snapshot) = snapshot {
        state_machine.replace_with_snapshot(snapshot.state);
        log.install_snapshot(snapshot.last_included_index, snapshot.last_included_term);
    }
    proof {
        loaded_entries_are_contiguous(wal@);
        assert(types::entry_views(entries@).take(entries@.len() as int) =~= types::entry_views(
            entries@,
        ));
    }
    append_recorded(&mut log, &entries);
    apply_recorded(&mut state_machine, &entries, entries.len());
    Ok((log, state_machine))
}

/// Replays a snapshot and every recorded entry, where the entries begin right
/// after the snapshot.
pub fn try_recover_state_from_wal(wal: &Wal) -> (r: Option<
    DbResult<(MemLog, InMemoryStateMachine)>,
>)
    ensures
        r is Some <==> follows_snapshot(wal@),
        r matches Some(recovered) ==> match recovered_state(wal@) {
            Ok((log, state)) => recovered matches Ok(found) && found.0@ == log && found.1@ == state
                && found.0@.wf() && found.1.wf(),
            Err(error) => recovered matches Err(e) && e@ == error,
        },
{
    if let Ok(entries) = wal.load() {
        if let Ok(snapshot) = wal.load_snapshot() {
            let base: u64 = match &snapshot {
                Some(data) => data.last_included_index,
                None => 0,
            };
            if entries.len() > 0 {
                assert(types::entry_views(entries@)[0] == entries@[0]@);
                if entries[0].index as u128 != base as u128 + 1 {
                    return None;
                }
            }
        }
    }
    Some(recover_state_from_wal(wal))
}

/// Restores a node: all recorded entries, and the state of the committed ones.
pub fn recover_node_from_wal(wal: &Wal) -> (r: DbResult<(MemLog, InMemoryStateMachine, Index)>)
    ensures
        match recovered_node(wal@) {
            Ok((log, state, commit)) => r matches Ok(found) && found.0@ == log && found.1@ == state
                && found.2 == commit && found.0@.wf() && found.1.wf(),
            Err(error) => r matches Err(e) && e@ == error,
        },
{
    proof {
        reveal(recovered_node);
    }
    let entries = match wal.load() {
        Ok(entries) => entries,
        Err(error) => {
            return Err(error);
        },
    };
    let mut commit_index: u64 = match wal.load_commit_index() {
        Ok(index) => index,
        Err(error) => {
            return Err(error);
        },
    };
    let snapshot = match wal.load_snapshot() {
        Ok(snapshot) => snapshot,
        Err(error) => {
            return Err(error);
        },
    };
    let mut log = MemLog::default();
    let mut state_machine = InMemoryStateMachine::default();
    let mut snapshot_index: u64 = 0;
    if let Some(snapshot) = snapshot {
        snapshot_index = snapshot.last_included_index;
        state_machine.replace_with_snapshot(snapshot.state);
        log.install_snapshot(snapshot.last_included_index, snapshot.last_included_term);
    }
    let ghost all = types::entry_views(entries@);
    let ghost base = log@;
    let count: usize = entries.len();
    if count > 0 {
        let expected: u128 = snapshot_index as u128 + 1;
        if entries[0].index as u128 != expected {
            assert(all[0] == entries@[0]@);
            let message = join4(
                "WAL after snapshot must start at index ",
                decimal_text(expected).as_str(),
                ", found ",
                decimal_text(entries[0].index as u128).as_str(),
            );
            return Err(DbError::CorruptWal(message));
        }
    }
    proof {
        loaded_entries_are_contiguous(wal@);
        assert(memlog::contiguous(all, base.base_index + 1));
        contiguous_end(all, base.base_index);
    }
    let recovered_last_index: u64 = if count > 0 {
        entries[count - 1].index
    } else {
        snapshot_index
    };
    assert(recovered_last_index == base.appended(all).last_index());
    if commit_index < snapshot_index {
        commit_index = snapshot_index;
    }
    if commit_index > recovered_last_index {
        let message = join4(
            "commit-index metadata ",
            decimal_text(commit_index as u128).as_str(),
            " exceeds recovered log end ",
            decimal_text(recovered_last_index as u128).as_str(),
        );
        return Err(DbError::CorruptWal(message));
    }
    append_recorded(&mut log, &entries);
    apply_recorded(&mut state_machine, &entries, (commit_index - snapshot_index) as usize);
    Ok((log, state_machine, commit_index))
}

} // verus!
