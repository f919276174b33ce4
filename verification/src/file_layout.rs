//! Where everything stands in the files, byte by byte, and what the calls on the
//! files do to them.
use vstd::prelude::*;
use vstd::utf8::*;

use crate::bytes;
use crate::memlog;
use crate::memlog::MemLogV;
use crate::ordered;
use crate::raft_durability;
use crate::snapshot_codec;
use crate::snapshot_codec::{PersistentRaftMeta, SnapshotDataV};
use crate::state_machine;
use crate::state_machine::KvMap;
use crate::text;
use crate::types::{CommandV, DbErrorV, Index, LogEntryV, NodeId, Term};
use crate::wal;
use crate::wal::WalV;
use crate::wal_codec;

verus! {

/// The number that bytes stand for, the lowest first.
pub open spec fn number(b: Seq<u8>) -> nat
    decreases b.len(),
{
    if b.len() == 0 {
        0
    } else {
        b[0] as nat + 256 * number(b.skip(1))
    }
}

proof fn four_bytes(b: Seq<u8>)
    requires
        b.len() == 4,
    ensures
        number(b) == b[0] + 256 * b[1] + 65536 * b[2] + 16777216 * b[3],
{
    reveal_with_fuel(number, 5);
    let c = b.skip(1);
    let d = c.skip(1);
    let e = d.skip(1);
    assert(c[0] == b[1] && d[0] == b[2] && e[0] == b[3]);
    assert(number(e) == b[3]);
    assert(number(d) == b[2] + 256 * number(e));
    assert(number(c) == b[1] + 256 * number(d));
}

proof fn two_halves(b: Seq<u8>)
    requires
        b.len() == 8,
    ensures
        number(b) == number(b.subrange(0, 4)) + 0x1_0000_0000 * number(b.subrange(4, 8)),
{
    reveal_with_fuel(number, 5);
    let c = b.skip(1);
    let d = c.skip(1);
    let e = d.skip(1);
    let f = e.skip(1);
    assert(c[0] == b[1] && d[0] == b[2] && e[0] == b[3]);
    assert(f =~= b.subrange(4, 8));
    let low = b.subrange(0, 4);
    four_bytes(low);
    assert(low[0] == b[0] && low[1] == b[1] && low[2] == b[2] && low[3] == b[3]);
    assert(number(b) == b[0] + 256 * number(c));
    assert(number(c) == b[1] + 256 * number(d));
    assert(number(d) == b[2] + 256 * number(e));
    assert(number(e) == b[3] + 256 * number(f));
}

/// Numbers are written in four or eight bytes, the lowest first.
pub proof fn numbers_have_the_lowest_byte_first(x: u32, y: u64)
    ensures
        bytes::le32(x).len() == 4,
        number(bytes::le32(x)) == x,
        bytes::le64(y).len() == 8,
        number(bytes::le64(y)) == y,
{
    bytes::le_lengths();
    four_bytes(bytes::le32(x));
    reveal(bytes::le32);
    reveal(bytes::le64);
    let low = (y % 0x1_0000_0000) as u32;
    let high = (y / 0x1_0000_0000) as u32;
    assert(bytes::le64(y).subrange(0, 4) =~= bytes::le32(low));
    assert(bytes::le64(y).subrange(4, 8) =~= bytes::le32(high));
    four_bytes(bytes::le32(low));
    four_bytes(bytes::le32(high));
    two_halves(bytes::le64(y));
}

/// And they are read the same way, from wherever they stand.
pub proof fn numbers_are_read_where_they_stand(b: Seq<u8>, at: int)
    requires
        0 <= at,
    ensures
        at + 4 <= b.len() ==> bytes::u32_at(b, at) == number(b.subrange(at, at + 4)),
        at + 8 <= b.len() ==> bytes::u64_at(b, at) == number(b.subrange(at, at + 8)),
{
    if at + 4 <= b.len() {
        bytes::u32_rewrites(b, at);
        numbers_have_the_lowest_byte_first(bytes::u32_at(b, at), 0);
    }
    if at + 8 <= b.len() {
        bytes::u64_rewrites(b, at);
        numbers_have_the_lowest_byte_first(0, bytes::u64_at(b, at));
    }
}

/// The record of a log entry: a byte for what is done, 1 for a put and 2 for a
/// delete; the term and the index in eight bytes each; the lengths of key and
/// value in four bytes each; and key and value in UTF-8, a delete without a
/// value.
pub open spec fn is_record(b: Seq<u8>, entry: LogEntryV) -> bool {
    let (code, key, value): (u8, Seq<u8>, Seq<u8>) = match entry.command {
        CommandV::Put { key, value } => (1, encode_utf8(key), encode_utf8(value)),
        CommandV::Delete { key } => (2, encode_utf8(key), Seq::empty()),
    };
    &&& b.len() == 25int + key.len() + value.len()
    &&& b[0] == code
    &&& number(b.subrange(1, 9)) == entry.term
    &&& number(b.subrange(9, 17)) == entry.index
    &&& number(b.subrange(17, 21)) == key.len()
    &&& number(b.subrange(21, 25)) == value.len()
    &&& b.subrange(25, 25int + key.len()) == key
    &&& b.subrange(25int + key.len(), 25int + key.len() + value.len()) == value
}

/// Every entry whose key and value are short enough for the four bytes of their
/// lengths is recorded in that form.
pub proof fn records_are_laid_out(entry: LogEntryV)
    requires
        wal_codec::entry_error(entry) is None,
    ensures
        is_record(wal_codec::entry_bytes(entry), entry),
{
    reveal(wal_codec::entry_bytes);
    reveal(wal_codec::header_bytes);
    bytes::le_lengths();
    let b = wal_codec::entry_bytes(entry);
    let key = wal_codec::key_bytes(entry.command);
    let value = wal_codec::value_bytes(entry.command);
    numbers_have_the_lowest_byte_first(key.len() as u32, entry.term);
    numbers_have_the_lowest_byte_first(value.len() as u32, entry.index);
    assert(b.subrange(1, 9) =~= bytes::le64(entry.term));
    assert(b.subrange(9, 17) =~= bytes::le64(entry.index));
    assert(b.subrange(17, 21) =~= bytes::le32(key.len() as u32));
    assert(b.subrange(21, 25) =~= bytes::le32(value.len() as u32));
    assert(b.subrange(25, 25int + key.len()) =~= key);
    assert(b.subrange(25int + key.len(), 25int + key.len() + value.len()) =~= value);
}

/// Only a key or a value whose length does not fit four bytes keeps an entry from
/// being recorded, and the error names which.
pub proof fn long_texts_have_no_record(entry: LogEntryV)
    ensures
        ({
            let (key, value): (Seq<u8>, Seq<u8>) = match entry.command {
                CommandV::Put { key, value } => (encode_utf8(key), encode_utf8(value)),
                CommandV::Delete { key } => (encode_utf8(key), Seq::empty()),
            };
            wal_codec::entry_error(entry) == if key.len() >= 0x1_0000_0000 {
                Some(DbErrorV::CorruptWal("key length exceeds WAL format limits"@))
            } else if value.len() >= 0x1_0000_0000 {
                Some(DbErrorV::CorruptWal("value length exceeds WAL format limits"@))
            } else {
                None
            }
        }),
{
}

/// Bytes that begin with a record are read as its entry, and as the record's
/// length; and what is read is a record.
pub proof fn records_are_read_as_laid_out(b: Seq<u8>)
    ensures
        wal_codec::decoded_entry(b) matches Ok((entry, n)) ==> 0 < n <= b.len() && is_record(
            b.take(n),
            entry,
        ),
        forall|entry: LogEntryV, n: int|
            0 <= n <= b.len() && n <= usize::MAX && #[trigger] is_record(b.take(n), entry)
                ==> wal_codec::decoded_entry(b) == Ok::<(LogEntryV, int), DbErrorV>((entry, n)),
{
    if wal_codec::decoded_entry(b) is Ok {
        wal_codec::record_is_canonical(b);
        records_are_laid_out(wal_codec::decoded_entry(b)->Ok_0.0);
    }
    assert forall|entry: LogEntryV, n: int|
        0 <= n <= b.len() && n <= usize::MAX && #[trigger] is_record(
            b.take(n),
            entry,
        ) implies wal_codec::decoded_entry(b) == Ok::<(LogEntryV, int), DbErrorV>((entry, n)) by {
        let r = b.take(n);
        let key = wal_codec::key_bytes(entry.command);
        let value = wal_codec::value_bytes(entry.command);
        numbers_are_read_where_they_stand(r, 1);
        numbers_are_read_where_they_stand(r, 9);
        numbers_are_read_where_they_stand(r, 17);
        numbers_are_read_where_they_stand(r, 21);
        assert(bytes::u32_at(r, 17) == key.len());
        assert(bytes::u32_at(r, 21) == value.len());
        assert(wal_codec::recordable(entry));
        bytes::u64_rewrites(r, 1);
        bytes::u64_rewrites(r, 9);
        bytes::u32_rewrites(r, 17);
        bytes::u32_rewrites(r, 21);
        assert(r =~= wal_codec::entry_bytes(entry)) by {
            reveal(wal_codec::entry_bytes);
            reveal(wal_codec::header_bytes);
            assert(r =~= seq![r[0]] + r.subrange(1, 9) + r.subrange(9, 17) + r.subrange(17, 21)
                + r.subrange(21, 25) + r.subrange(25, 25int + key.len()) + r.subrange(
                25int + key.len(),
                25int + key.len() + value.len(),
            ));
        }
        wal_codec::record_reads_back(entry, b.skip(n));
        assert(b =~= r + b.skip(n));
    }
}

/// The file of a commit index is its eight bytes, and an empty file stands for
/// zero; any other length is refused.
pub proof fn commit_files_are_laid_out(w: WalV, index: Index)
    ensures
        number(w.persist_commit_index(index).commit) == index,
        w.persist_commit_index(index).commit.len() == 8,
        w.persist_commit_index(index) == (WalV {
            commit: w.persist_commit_index(index).commit,
            ..w
        }),
        w.persist_commit_index(index).load_commit_index() == Ok::<Index, DbErrorV>(index),
        w.commit.len() == 0 ==> w.load_commit_index() == Ok::<Index, DbErrorV>(0),
        w.commit.len() == 8 ==> w.load_commit_index() == Ok::<Index, DbErrorV>(
            number(w.commit) as u64,
        ),
        w.commit.len() != 0 && w.commit.len() != 8 ==> w.load_commit_index() == Err::<
            Index,
            DbErrorV,
        >(
            DbErrorV::CorruptWal(
                "commit-index metadata has invalid length "@ + text::decimal(w.commit.len())
                    + ", expected 8"@,
            ),
        ),
{
    numbers_have_the_lowest_byte_first(0, index);
    snapshot_codec::commit_index_reads_back(index);
    if w.commit.len() == 8 {
        numbers_are_read_where_they_stand(w.commit, 0);
        assert(w.commit.subrange(0, 8) =~= w.commit);
    }
}

/// The file of a term and vote: the term in eight bytes, a byte that says
/// whether there is a vote, 1 for yes and 0 for no, and the vote in eight bytes,
/// zero where there is none.
pub open spec fn is_meta(b: Seq<u8>, term: Term, vote: Option<NodeId>) -> bool {
    &&& b.len() == 17
    &&& number(b.subrange(0, 8)) == term
    &&& b[8] == if vote is Some {
        1
    } else {
        0int
    }
    &&& number(b.subrange(9, 17)) == if vote is Some {
        vote->0
    } else {
        0
    }
}

/// Term and vote are kept in that form, and loaded as they were kept; an empty
/// file stands for term zero without a vote.
pub proof fn meta_files_are_laid_out(w: WalV, term: Term, vote: Option<NodeId>)
    ensures
        ({
            let after = w.persist_raft_meta(term, vote);
            &&& is_meta(after.meta, term, vote)
            &&& after == (WalV { meta: after.meta, ..w })
            &&& after.load_raft_meta() == Ok::<PersistentRaftMeta, DbErrorV>(
                PersistentRaftMeta { current_term: term, voted_for: vote },
            )
        }),
        w.meta.len() == 0 ==> w.load_raft_meta() == Ok::<PersistentRaftMeta, DbErrorV>(
            PersistentRaftMeta { current_term: 0, voted_for: None },
        ),
        w.meta.len() == 17 && w.meta[8] <= 1 ==> w.load_raft_meta() == Ok::<
            PersistentRaftMeta,
            DbErrorV,
        >(
            PersistentRaftMeta {
                current_term: number(w.meta.subrange(0, 8)) as u64,
                voted_for: if w.meta[8] == 1 {
                    Some(number(w.meta.subrange(9, 17)) as u64)
                } else {
                    None
                },
            },
        ),
        w.meta.len() == 17 && w.meta[8] > 1 ==> w.load_raft_meta() == Err::<
            PersistentRaftMeta,
            DbErrorV,
        >(
            DbErrorV::CorruptWal(
                "raft vote metadata has invalid presence flag "@ + text::decimal(w.meta[8] as nat),
            ),
        ),
        w.meta.len() != 0 && w.meta.len() != 17 ==> w.load_raft_meta() == Err::<
            PersistentRaftMeta,
            DbErrorV,
        >(
            DbErrorV::CorruptWal(
                "raft metadata has invalid length "@ + text::decimal(w.meta.len())
                    + ", expected 17"@,
            ),
        ),
{
    reveal(snapshot_codec::meta_bytes);
    reveal(snapshot_codec::decoded_meta);
    bytes::le_lengths();
    let id = match vote {
        Some(id) => id,
        None => 0,
    };
    numbers_have_the_lowest_byte_first(0, term);
    numbers_have_the_lowest_byte_first(0, id);
    let b = w.persist_raft_meta(term, vote).meta;
    assert(b.subrange(0, 8) =~= bytes::le64(term));
    assert(b.subrange(9, 17) =~= bytes::le64(id));
    snapshot_codec::meta_reads_back(PersistentRaftMeta { current_term: term, voted_for: vote });
    if w.meta.len() == 17 {
        numbers_are_read_where_they_stand(w.meta, 0);
        numbers_are_read_where_they_stand(w.meta, 9);
    }
}

/// The record of a key and its value in a snapshot: the two lengths in four bytes
/// each, then both in UTF-8.
pub open spec fn is_pair(b: Seq<u8>, key: Seq<char>, value: Seq<char>) -> bool {
    let k = encode_utf8(key);
    let v = encode_utf8(value);
    &&& b.len() == 8int + k.len() + v.len()
    &&& number(b.subrange(0, 4)) == k.len()
    &&& number(b.subrange(4, 8)) == v.len()
    &&& b.subrange(8, 8int + k.len()) == k
    &&& b.subrange(8int + k.len(), 8int + k.len() + v.len()) == v
}

/// Pairs are recorded in that form.
pub proof fn pairs_are_laid_out(pair: snapshot_codec::Pair)
    requires
        snapshot_codec::pair_error(pair) is None,
    ensures
        is_pair(snapshot_codec::pair_bytes(pair), pair.0, pair.1),
{
    reveal(snapshot_codec::pair_bytes);
    bytes::le_lengths();
    let b = snapshot_codec::pair_bytes(pair);
    let k = encode_utf8(pair.0);
    let v = encode_utf8(pair.1);
    numbers_have_the_lowest_byte_first(k.len() as u32, 0);
    numbers_have_the_lowest_byte_first(v.len() as u32, 0);
    assert(b.subrange(0, 4) =~= bytes::le32(k.len() as u32));
    assert(b.subrange(4, 8) =~= bytes::le32(v.len() as u32));
    assert(b.subrange(8, 8int + k.len()) =~= k);
    assert(b.subrange(8int + k.len(), 8int + k.len() + v.len()) =~= v);
}

/// The file of a snapshot: the index and the term of the last entry in it, in
/// eight bytes each, the number of keys in four, and the records of the keys in
/// their order.
pub proof fn snapshots_are_laid_out(snapshot: SnapshotDataV)
    requires
        ordered::sorted_pairs(snapshot.state).len() <= u32::MAX,
    ensures
        ({
            let b = snapshot_codec::snapshot_bytes(snapshot);
            let pairs = ordered::sorted_pairs(snapshot.state);
            &&& b.len() >= 20
            &&& number(b.subrange(0, 8)) == snapshot.last_included_index
            &&& number(b.subrange(8, 16)) == snapshot.last_included_term
            &&& number(b.subrange(16, 20)) == pairs.len()
            &&& b.skip(20) == snapshot_codec::pairs_bytes(pairs)
        }),
{
    reveal(snapshot_codec::snapshot_bytes);
    bytes::le_lengths();
    let b = snapshot_codec::snapshot_bytes(snapshot);
    let pairs = ordered::sorted_pairs(snapshot.state);
    numbers_have_the_lowest_byte_first(pairs.len() as u32, snapshot.last_included_index);
    numbers_have_the_lowest_byte_first(0, snapshot.last_included_term);
    assert(b.subrange(0, 8) =~= bytes::le64(snapshot.last_included_index));
    assert(b.subrange(8, 16) =~= bytes::le64(snapshot.last_included_term));
    assert(b.subrange(16, 20) =~= bytes::le32(pairs.len() as u32));
    assert(b.skip(20) =~= snapshot_codec::pairs_bytes(pairs));
}

/// The records of pairs stand one behind the other, in order.
pub proof fn pairs_stand_in_order(pairs: Seq<snapshot_codec::Pair>, last: snapshot_codec::Pair)
    ensures
        snapshot_codec::pairs_bytes(Seq::empty()).len() == 0,
        snapshot_codec::pairs_bytes(pairs.push(last)) == snapshot_codec::pairs_bytes(pairs)
            + snapshot_codec::pair_bytes(last),
{
    assert(pairs.push(last).drop_last() =~= pairs);
}

/// The records of entries stand one behind the other, in order.
pub proof fn records_stand_in_order(entries: Seq<LogEntryV>, last: LogEntryV)
    ensures
        wal_codec::log_bytes(Seq::empty()).len() == 0,
        wal_codec::log_bytes(entries.push(last)) == wal_codec::log_bytes(entries)
            + wal_codec::entry_bytes(last),
{
    assert(entries.push(last).drop_last() =~= entries);
}

/// Entries are written behind those in the file and then loaded with them, where
/// they follow on; where one of them has no record, nothing is written. The
/// other files stay.
pub proof fn appended_entries_are_loaded(w: WalV, held: Seq<LogEntryV>, entries: Seq<LogEntryV>)
    requires
        w.load() == Ok::<Seq<LogEntryV>, DbErrorV>(held),
        held.len() > 0,
        memlog::contiguous(entries, held[held.len() - 1].index + 1),
    ensures
        ({
            let (after, result) = w.append_batch(entries);
            &&& after == (WalV { log: after.log, ..w })
            &&& result is Err ==> after == w
            &&& result is Err <==> exists|i: int|
                0 <= i < entries.len() && wal_codec::entry_error(#[trigger] entries[i]) is Some
            &&& (forall|i: int|
                0 <= i < entries.len() ==> wal_codec::recordable(#[trigger] entries[i]))
                ==> after.load() == Ok::<Seq<LogEntryV>, DbErrorV>(held + entries)
        }),
{
    errors_are_of_entries(entries);
    wal_codec::log_is_canonical(w.log);
    wal_codec::accepted_sequences(held);
    if forall|i: int| 0 <= i < entries.len() ==> wal_codec::recordable(#[trigger] entries[i]) {
        let all = held + entries;
        wal_codec::recordable_log(entries);
        wal_codec::log_bytes_in_parts(held, entries);
        assert forall|i: int| 0 <= i < all.len() implies wal_codec::recordable(
            #[trigger] all[i],
        ) by {
            if i < held.len() {
                assert(all[i] == held[i]);
            } else {
                assert(all[i] == entries[i - held.len()]);
            }
        }
        wal_codec::log_reads_back(all);
        assert(memlog::contiguous(all, all[0].index as int)) by {
            let last = held[held.len() - 1].index;
            assert(last == held[0].index + held.len() - 1);
            assert forall|k: int| 0 <= k < all.len() implies (#[trigger] all[k]).index
                == all[0].index + k by {
                if k < held.len() {
                    assert(all[k] == held[k]);
                } else {
                    assert(all[k] == entries[k - held.len()]);
                }
            }
        }
        wal_codec::accepted_sequences(all);
    }
}

proof fn errors_are_of_entries(entries: Seq<LogEntryV>)
    ensures
        wal_codec::log_error(entries) is Some <==> exists|i: int|
            0 <= i < entries.len() && wal_codec::entry_error(#[trigger] entries[i]) is Some,
    decreases entries.len(),
{
    if entries.len() > 0 {
        let rest = entries.drop_last();
        errors_are_of_entries(rest);
        if wal_codec::log_error(rest) is Some {
            let i = choose|i: int|
                0 <= i < rest.len() && wal_codec::entry_error(#[trigger] rest[i]) is Some;
            assert(entries[i] == rest[i]);
        } else {
            assert forall|i: int| 0 <= i < rest.len() implies wal_codec::entry_error(
                #[trigger] entries[i],
            ) is None by {
                assert(rest[i] == entries[i]);
            }
            assert(entries[entries.len() - 1] == entries.last());
        }
    }
}

/// A log is cut at an index: exactly the entries at or before it stay, in their
/// order, or exactly those after it. The other files stay.
pub proof fn logs_are_cut_at_an_index(w: WalV, held: Seq<LogEntryV>, index: Index)
    requires
        w.load() == Ok::<Seq<LogEntryV>, DbErrorV>(held),
    ensures
        ({
            let (front, result) = w.truncate_to(index);
            let (back, other) = w.truncate_prefix(index);
            &&& result is Ok && other is Ok
            &&& front == (WalV { log: front.log, ..w })
            &&& back == (WalV { log: back.log, ..w })
            &&& front.load() is Ok && back.load() is Ok
            &&& front.load()->Ok_0 + back.load()->Ok_0 == held
            &&& forall|i: int|
                0 <= i < front.load()->Ok_0.len() ==> (#[trigger] front.load()->Ok_0[i]).index
                    <= index
            &&& forall|i: int|
                0 <= i < back.load()->Ok_0.len() ==> (#[trigger] back.load()->Ok_0[i]).index
                    > index
        }),
{
    wal_codec::log_is_canonical(w.log);
    wal_codec::accepted_sequences(held);
    let first: int = if held.len() > 0 {
        held[0].index as int
    } else {
        1
    };
    assert(memlog::contiguous(held, first));
    raft_durability::through_is_prefix(held, first, index);
    raft_durability::after_is_suffix(held, first, index);
    let cut = if index < first {
        0
    } else if index - first + 1 >= held.len() {
        held.len() as int
    } else {
        index - first + 1
    };
    let front = held.take(cut);
    let back = held.skip(cut);
    assert(front + back =~= held);
    assert forall|i: int| 0 <= i < front.len() implies wal_codec::recordable(
        #[trigger] front[i],
    ) && front[i].index == first + i by {
        assert(front[i] == held[i]);
    }
    assert forall|i: int| 0 <= i < back.len() implies wal_codec::recordable(
        #[trigger] back[i],
    ) && back[i].index == first + cut + i by {
        assert(back[i] == held[cut + i]);
    }
    wal_codec::recordable_log(front);
    wal_codec::recordable_log(back);
    wal_codec::log_reads_back(front);
    wal_codec::log_reads_back(back);
    wal_codec::accepted_sequences(front);
    wal_codec::accepted_sequences(back);
}

/// A snapshot that can be written replaces the one before and is loaded as it
/// is. One that cannot leaves none. The other files stay.
pub proof fn stored_snapshots_are_loaded(w: WalV, snapshot: SnapshotDataV)
    ensures
        ({
            let (after, result) = w.persist_snapshot(snapshot);
            &&& after == (WalV { snapshot: after.snapshot, ..w })
            &&& result is Err ==> after.load_snapshot() == Ok::<Option<SnapshotDataV>, DbErrorV>(
                None,
            )
            &&& snapshot_codec::recordable_snapshot(snapshot) && result is Ok
                ==> after.load_snapshot() == Ok::<Option<SnapshotDataV>, DbErrorV>(Some(snapshot))
        }),
        w.snapshot.len() == 0 ==> w.load_snapshot() == Ok::<Option<SnapshotDataV>, DbErrorV>(None),
{
    if snapshot_codec::recordable_snapshot(snapshot) {
        snapshot_codec::snapshot_reads_back(snapshot);
    }
    reveal(snapshot_codec::decoded_snapshot);
}

/// A node starts from its files where all of them can be read, the log begins
/// right behind the snapshot, and the commit index does not lie behind the end of
/// the log. It then holds the entries of the log behind the snapshot, has
/// committed what it had, and no less than the snapshot, and its state is the
/// snapshot's with the committed entries applied to it. Otherwise it does not
/// start, for the first of these.
pub proof fn nodes_start_from_their_files(
    w: WalV,
    entries: Seq<LogEntryV>,
    kept: Index,
    snapshot: Option<SnapshotDataV>,
)
    requires
        w.load() == Ok::<Seq<LogEntryV>, DbErrorV>(entries),
        w.load_commit_index() == Ok::<Index, DbErrorV>(kept),
        w.load_snapshot() == Ok::<Option<SnapshotDataV>, DbErrorV>(snapshot),
        snapshot is Some ==> snapshot->0.last_included_index + entries.len() < u64::MAX,
    ensures
        ({
            let (base, base_term, state): (Index, Term, KvMap) = match snapshot {
                Some(data) => (data.last_included_index, data.last_included_term, data.state),
                None => (0, 0, Map::empty()),
            };
            let commit = if kept >= base {
                kept
            } else {
                base
            };
            let last = base + entries.len();
            if entries.len() > 0 && entries[0].index != base + 1 {
                wal::recovered_node(w) == Err::<(MemLogV, KvMap, Index), DbErrorV>(
                    DbErrorV::CorruptWal(
                        "WAL after snapshot must start at index "@ + text::decimal(
                            (base + 1) as nat,
                        ) + ", found "@ + text::decimal(entries[0].index as nat),
                    ),
                )
            } else if commit > last {
                wal::recovered_node(w) == Err::<(MemLogV, KvMap, Index), DbErrorV>(
                    DbErrorV::CorruptWal(
                        "commit-index metadata "@ + text::decimal(commit as nat)
                            + " exceeds recovered log end "@ + text::decimal(last as nat),
                    ),
                )
            } else {
                wal::recovered_node(w) == Ok::<(MemLogV, KvMap, Index), DbErrorV>(
                    (
                        MemLogV { base_index: base, base_term, entries },
                        state_machine::replayed(state, entries.take(commit - base)),
                        commit,
                    ),
                )
            }
        }),
{
    reveal(wal::recovered_node);
    let (log, state) = wal::snapshot_base(snapshot);
    wal_codec::accepted_sequences(entries);
    if entries.len() > 0 {
        assert(entries[entries.len() - 1].index == entries[0].index + entries.len() - 1);
    }
    assert(log.appended(entries).entries =~= entries);
}

/// A file that cannot be read keeps a node from starting, and the log is read
/// first, then the commit index, then the snapshot.
pub proof fn broken_files_start_nothing(w: WalV)
    ensures
        w.load() is Err ==> wal::recovered_node(w) is Err && wal::recovered_node(w)->Err_0
            == w.load()->Err_0,
        w.load() is Ok && w.load_commit_index() is Err ==> wal::recovered_node(w) is Err
            && wal::recovered_node(w)->Err_0 == w.load_commit_index()->Err_0,
        w.load() is Ok && w.load_commit_index() is Ok && w.load_snapshot() is Err
            ==> wal::recovered_node(w) is Err && wal::recovered_node(w)->Err_0
            == w.load_snapshot()->Err_0,
{
    reveal(wal::recovered_node);
}

/// All recorded entries, committed or not, are the log behind the snapshot, and
/// applied to it the state.
pub proof fn everything_recorded_is_recovered(
    w: WalV,
    entries: Seq<LogEntryV>,
    snapshot: Option<SnapshotDataV>,
)
    requires
        w.load() == Ok::<Seq<LogEntryV>, DbErrorV>(entries),
        w.load_snapshot() == Ok::<Option<SnapshotDataV>, DbErrorV>(snapshot),
    ensures
        ({
            let (base, base_term, state): (Index, Term, KvMap) = match snapshot {
                Some(data) => (data.last_included_index, data.last_included_term, data.state),
                None => (0, 0, Map::empty()),
            };
            wal::recovered_state(w) == Ok::<(MemLogV, KvMap), DbErrorV>(
                (
                    MemLogV { base_index: base, base_term, entries },
                    state_machine::replayed(state, entries),
                ),
            )
        }),
{
    let log = wal::snapshot_base(snapshot).0;
    assert(log.appended(entries).entries =~= entries);
}

/// Bytes that begin with no record are refused for the first of these: they are
/// too short for the fixed part, or for what its lengths say; the key is no
/// UTF-8; the value of a put is none; a delete has a value; or the first byte
/// stands for neither.
pub proof fn broken_records_say_why(b: Seq<u8>)
    ensures
        b.len() < 25 ==> wal_codec::decoded_entry(b) == Err::<(LogEntryV, int), DbErrorV>(
            DbErrorV::CorruptWal("truncated WAL entry header"@),
        ),
        b.len() >= 25 ==> {
            let k = number(b.subrange(17, 21));
            let v = number(b.subrange(21, 25));
            let key = b.subrange(25, 25int + k);
            let value = b.subrange(25int + k, 25int + k + v);
            k + v <= usize::MAX ==> {
                let why = if b.len() < 25 + k + v {
                    Some("truncated WAL payload"@)
                } else if !valid_utf8(key) {
                    Some("invalid UTF-8 key in WAL"@)
                } else if b[0] == 1 && !valid_utf8(value) {
                    Some("invalid UTF-8 value in WAL"@)
                } else if b[0] == 2 && v > 0 {
                    Some("delete record must not carry a value payload"@)
                } else if b[0] != 1 && b[0] != 2 {
                    Some("unknown WAL opcode "@ + text::decimal(b[0] as nat))
                } else {
                    None
                };
                &&& why is Some <==> wal_codec::decoded_entry(b) is Err
                &&& why is Some ==> wal_codec::decoded_entry(b)->Err_0 == DbErrorV::CorruptWal(
                    why->0,
                )
            }
        },
{
    reveal(wal_codec::decoded_entry);
    reveal(wal_codec::decoded_command);
    if b.len() >= 25 {
        numbers_are_read_where_they_stand(b, 17);
        numbers_are_read_where_they_stand(b, 21);
    }
}

/// So are the records of pairs.
pub proof fn broken_pairs_say_why(b: Seq<u8>)
    ensures
        b.len() < 8 ==> snapshot_codec::decoded_pair(b) == Err::<
            (snapshot_codec::Pair, int),
            DbErrorV,
        >(DbErrorV::CorruptWal("truncated snapshot key/value header"@)),
        b.len() >= 8 ==> {
            let k = number(b.subrange(0, 4));
            let v = number(b.subrange(4, 8));
            let key = b.subrange(8, 8int + k);
            let value = b.subrange(8int + k, 8int + k + v);
            k + v <= usize::MAX ==> {
                let why = if b.len() < 8 + k + v {
                    Some("truncated snapshot payload"@)
                } else if !valid_utf8(key) {
                    Some("invalid UTF-8 key in snapshot"@)
                } else if !valid_utf8(value) {
                    Some("invalid UTF-8 value in snapshot"@)
                } else {
                    None
                };
                match why {
                    Some(message) => snapshot_codec::decoded_pair(b) == Err::<
                        (snapshot_codec::Pair, int),
                        DbErrorV,
                    >(DbErrorV::CorruptWal(message)),
                    None => snapshot_codec::decoded_pair(b) == Ok::<
                        (snapshot_codec::Pair, int),
                        DbErrorV,
                    >(((decode_utf8(key), decode_utf8(value)), 8int + k + v)),
                }
            }
        },
{
    reveal(snapshot_codec::decoded_pair);
    if b.len() >= 8 {
        numbers_are_read_where_they_stand(b, 0);
        numbers_are_read_where_they_stand(b, 4);
    }
}

/// The file of a snapshot is read as it is laid out: as many pairs as it says,
/// and nothing behind them. A file that is shorter than its head, whose pairs are
/// broken, or that holds more is refused.
pub proof fn snapshot_files_are_read_as_laid_out(b: Seq<u8>)
    requires
        b.len() > 0,
    ensures
        b.len() < 20 ==> snapshot_codec::decoded_snapshot(b) == Err::<
            Option<SnapshotDataV>,
            DbErrorV,
        >(DbErrorV::CorruptWal("truncated snapshot header"@)),
        b.len() >= 20 ==> match snapshot_codec::decoded_pairs(
            b.skip(20),
            number(b.subrange(16, 20)),
        ) {
            Err(error) => snapshot_codec::decoded_snapshot(b) == Err::<
                Option<SnapshotDataV>,
                DbErrorV,
            >(error),
            Ok((pairs, rest)) => if rest.len() > 0 {
                snapshot_codec::decoded_snapshot(b) == Err::<Option<SnapshotDataV>, DbErrorV>(
                    DbErrorV::CorruptWal("snapshot contains trailing bytes"@),
                )
            } else {
                snapshot_codec::decoded_snapshot(b) == Ok::<Option<SnapshotDataV>, DbErrorV>(
                    Some(
                        SnapshotDataV {
                            last_included_index: number(b.subrange(0, 8)) as u64,
                            last_included_term: number(b.subrange(8, 16)) as u64,
                            state: ordered::map_of(pairs),
                        },
                    ),
                )
            },
        },
{
    reveal(snapshot_codec::decoded_snapshot);
    if b.len() >= 20 {
        numbers_are_read_where_they_stand(b, 0);
        numbers_are_read_where_they_stand(b, 8);
        numbers_are_read_where_they_stand(b, 16);
    }
}

/// A log whose records are whole is loaded where the first index is not zero and
/// every other is one above the one before it; and it is refused for the first
/// that is not.
pub proof fn logs_are_loaded_without_gaps(b: Seq<u8>, entries: Seq<LogEntryV>, k: int)
    requires
        wal_codec::decoded_log(b) == Ok::<Seq<LogEntryV>, DbErrorV>(entries),
        0 <= k < entries.len(),
        forall|j: int| 0 <= j < k ==> (#[trigger] entries[j]).index == entries[0].index + j,
    ensures
        entries[0].index == 0 ==> wal_codec::loaded_log(b) == Err::<Seq<LogEntryV>, DbErrorV>(
            DbErrorV::CorruptWal("non-contiguous index sequence: index 0 is invalid"@),
        ),
        entries[0].index > 0 && entries[k].index != entries[0].index + k ==> wal_codec::loaded_log(
            b,
        ) == Err::<Seq<LogEntryV>, DbErrorV>(
            DbErrorV::CorruptWal(
                "non-contiguous index sequence: expected "@ + text::decimal(
                    (entries[0].index + k) as nat,
                ) + ", found "@ + text::decimal(entries[k].index as nat),
            ),
        ),
        entries[0].index > 0 && k == entries.len() - 1 && entries[k].index == entries[0].index + k
            ==> wal_codec::loaded_log(b) == Ok::<Seq<LogEntryV>, DbErrorV>(entries),
{
    if entries[k].index != entries[0].index + k {
        gaps_are_found(entries, 0, k);
    } else if k == entries.len() - 1 {
        wal_codec::no_gap_means_contiguous(entries, 0);
    }
}

proof fn gaps_are_found(entries: Seq<LogEntryV>, j: int, k: int)
    requires
        0 <= j <= k < entries.len(),
        entries[k].index != entries[0].index + k,
        forall|i: int| j <= i < k ==> (#[trigger] entries[i]).index == entries[0].index + i,
    ensures
        wal_codec::gap_error(entries, j) == wal_codec::gap_error(entries, k),
    decreases k - j,
{
    if j < k {
        gaps_are_found(entries, j + 1, k);
    }
}

} // verus!
