//! The byte formats of the write-ahead log and of the files beside it.
use vstd::prelude::*;
use vstd::slice::*;
use vstd::utf8::*;

use crate::bytes;
use crate::bytes::{copy_range, put_bytes, put_u32, put_u64, read_u32, read_u64};
use crate::memlog;
use crate::state_machine;
use crate::text;
use crate::text::{decimal_text, join2, join4, text_from_utf8};
use crate::types;
use crate::types::{Command, CommandV, DbError, DbErrorV, DbResult, LogEntry, LogEntryV};

verus! {

pub const WAL_OP_PUT: u8 = 1;

pub const WAL_OP_DELETE: u8 = 2;

pub const WAL_HEADER_LEN: usize = 25;

/// The error for bytes, or entries, that the formats have no place for.
pub open spec fn corrupt(message: Seq<char>) -> DbErrorV {
    DbErrorV::CorruptWal(message)
}

pub(crate) fn wal_corruption(message: &str) -> (r: DbError)
    ensures
        r@ == corrupt(message@),
{
    DbError::CorruptWal(message.to_owned())
}

/// The UTF-8 bytes of the key that a command writes.
pub open spec fn key_bytes(command: CommandV) -> Seq<u8> {
    encode_utf8(state_machine::key_of(command))
}

/// The UTF-8 bytes of the value that a command writes; none for a delete.
pub open spec fn value_bytes(command: CommandV) -> Seq<u8> {
    match command {
        CommandV::Put { value, .. } => encode_utf8(value),
        CommandV::Delete { .. } => Seq::empty(),
    }
}

pub open spec fn opcode(command: CommandV) -> u8 {
    match command {
        CommandV::Put { .. } => WAL_OP_PUT,
        CommandV::Delete { .. } => WAL_OP_DELETE,
    }
}

/// Why an entry has no record, if it has none: a length that four bytes cannot
/// hold.
pub open spec fn entry_error(entry: LogEntryV) -> Option<DbErrorV> {
    if key_bytes(entry.command).len() > u32::MAX {
        Some(corrupt("key length exceeds WAL format limits"@))
    } else if value_bytes(entry.command).len() > u32::MAX {
        Some(corrupt("value length exceeds WAL format limits"@))
    } else {
        None
    }
}

/// The fixed part of a record: opcode, term, index and the two lengths.
#[verifier::opaque]
pub open spec fn header_bytes(code: u8, term: u64, index: u64, key_len: u32, value_len: u32) -> Seq<
    u8,
> {
    seq![code] + bytes::le64(term) + bytes::le64(index) + bytes::le32(key_len) + bytes::le32(
        value_len,
    )
}

/// The record of an entry: the fixed part, then key and value.
#[verifier::opaque]
pub open spec fn entry_bytes(entry: LogEntryV) -> Seq<u8> {
    let key = key_bytes(entry.command);
    let value = value_bytes(entry.command);
    header_bytes(
        opcode(entry.command),
        entry.term,
        entry.index,
        key.len() as u32,
        value.len() as u32,
    ) + key + value
}

/// The first entry, in order, that has no record.
pub open spec fn log_error(entries: Seq<LogEntryV>) -> Option<DbErrorV>
    decreases entries.len(),
{
    if entries.len() == 0 {
        None
    } else if log_error(entries.drop_last()) is Some {
        log_error(entries.drop_last())
    } else {
        entry_error(entries.last())
    }
}

/// The records of the entries, one after the other.
pub open spec fn log_bytes(entries: Seq<LogEntryV>) -> Seq<u8>
    decreases entries.len(),
{
    if entries.len() == 0 {
        Seq::empty()
    } else {
        log_bytes(entries.drop_last()) + entry_bytes(entries.last())
    }
}

/// The command that an opcode, key bytes and value bytes stand for.
#[verifier::opaque]
pub open spec fn decoded_command(code: u8, key: Seq<u8>, value: Seq<u8>) -> Result<
    CommandV,
    DbErrorV,
> {
    if !valid_utf8(key) {
        Err(corrupt("invalid UTF-8 key in WAL"@))
    } else if code == WAL_OP_PUT {
        if !valid_utf8(value) {
            Err(corrupt("invalid UTF-8 value in WAL"@))
        } else {
            Ok(CommandV::Put { key: decode_utf8(key), value: decode_utf8(value) })
        }
    } else if code == WAL_OP_DELETE {
        if value.len() != 0 {
            Err(corrupt("delete record must not carry a value payload"@))
        } else {
            Ok(CommandV::Delete { key: decode_utf8(key) })
        }
    } else {
        Err(corrupt("unknown WAL opcode "@ + text::decimal(code as nat)))
    }
}

/// The entry whose record stands at the front, and the length of the record.
#[verifier::opaque]
pub open spec fn decoded_entry(b: Seq<u8>) -> Result<(LogEntryV, int), DbErrorV> {
    if b.len() < WAL_HEADER_LEN {
        Err(corrupt("truncated WAL entry header"@))
    } else {
        let term = bytes::u64_at(b, 1);
        let index = bytes::u64_at(b, 9);
        let key_end = WAL_HEADER_LEN + bytes::u32_at(b, 17);
        let end = key_end + bytes::u32_at(b, 21);
        if bytes::u32_at(b, 17) + bytes::u32_at(b, 21) > usize::MAX {
            Err(corrupt("WAL payload length overflow"@))
        } else if b.len() < end {
            Err(corrupt("truncated WAL payload"@))
        } else {
            match decoded_command(
                b[0],
                b.subrange(WAL_HEADER_LEN as int, key_end),
                b.subrange(key_end, end),
            ) {
                Err(error) => Err(error),
                Ok(command) => Ok((LogEntryV { term, index, command }, end)),
            }
        }
    }
}

/// The entries whose records the bytes hold, or the first fault in them.
pub open spec fn decoded_log(b: Seq<u8>) -> Result<Seq<LogEntryV>, DbErrorV>
    decreases b.len(),
{
    if b.len() == 0 {
        Ok(Seq::empty())
    } else {
        proof {
            reveal(decoded_entry);
        }
        match decoded_entry(b) {
            Err(error) => Err(error),
            Ok((entry, n)) => match decoded_log(b.skip(n)) {
                Err(error) => Err(error),
                Ok(rest) => Ok(seq![entry] + rest),
            },
        }
    }
}

/// Why the indexes of entries from position `k` on do not count up by one from
/// the first, if they do not.
pub open spec fn gap_error(entries: Seq<LogEntryV>, k: int) -> Option<DbErrorV>
    decreases entries.len() - k,
{
    if k >= entries.len() {
        None
    } else if entries[k].index != entries[0].index + k {
        Some(
            corrupt(
                "non-contiguous index sequence: expected "@ + text::decimal(
                    (entries[0].index + k) as nat,
                ) + ", found "@ + text::decimal(entries[k].index as nat),
            ),
        )
    } else {
        gap_error(entries, k + 1)
    }
}

/// Why loaded entries are refused: they start at zero or leave a gap.
pub open spec fn sequence_error(entries: Seq<LogEntryV>) -> Option<DbErrorV> {
    if entries.len() == 0 {
        None
    } else if entries[0].index == 0 {
        Some(corrupt("non-contiguous index sequence: index 0 is invalid"@))
    } else {
        gap_error(entries, 0)
    }
}

/// The entries that a log file gives back.
pub open spec fn loaded_log(b: Seq<u8>) -> Result<Seq<LogEntryV>, DbErrorV> {
    match decoded_log(b) {
        Err(error) => Err(error),
        Ok(entries) => match sequence_error(entries) {
            Some(error) => Err(error),
            None => Ok(entries),
        },
    }
}

/// Appends the record of an entry.
pub fn encode_entry(entry: &LogEntry, buffer: &mut Vec<u8>) -> (r: DbResult<()>)
    ensures
        match entry_error(entry@) {
            None => r is Ok && final(buffer)@ == old(buffer)@ + entry_bytes(entry@),
            Some(error) => r matches Err(e) && e@ == error && final(buffer)@ == old(buffer)@,
        },
{
    let ghost before = buffer@;
    let empty = String::new();
    let (code, key, value): (u8, &str, &str) = match &entry.command {
        Command::Put { key, value } => (WAL_OP_PUT, key.as_str(), value.as_str()),
        Command::Delete { key } => (WAL_OP_DELETE, key.as_str(), empty.as_str()),
    };
    let key_data = key.as_bytes();
    if key_data.len() as u64 > u32::MAX as u64 {
        return Err(wal_corruption("key length exceeds WAL format limits"));
    }
    let value_data = value.as_bytes();
    proof {
        if entry.command is Delete {
            assert(value@ =~= Seq::<char>::empty());
            assert(encode_utf8(value@) =~= Seq::<u8>::empty());
        }
    }
    assert(value_data@ == value_bytes(entry@.command));
    if value_data.len() as u64 > u32::MAX as u64 {
        return Err(wal_corruption("value length exceeds WAL format limits"));
    }
    proof {
        reveal(header_bytes);
        reveal(entry_bytes);
    }
    buffer.push(code);
    put_u64(buffer, entry.term);
    put_u64(buffer, entry.index);
    put_u32(buffer, key_data.len() as u32);
    put_u32(buffer, value_data.len() as u32);
    put_bytes(buffer, key_data);
    put_bytes(buffer, value_data);
    assert(buffer@ =~= before + entry_bytes(entry@));
    Ok(())
}

/// Appends the records of entries; on the first that has none, stops.
pub fn encode_log(entries: &[LogEntry]) -> (r: DbResult<Vec<u8>>)
    ensures
        match log_error(types::entry_views(entries@)) {
            None => r matches Ok(encoded) && encoded@ == log_bytes(types::entry_views(entries@)),
            Some(error) => r matches Err(e) && e@ == error,
        },
{
    let ghost all = types::entry_views(entries@);
    let mut encoded: Vec<u8> = Vec::new();
    let mut i: usize = 0;
    while i < entries.len()
        invariant
            i <= entries@.len(),
            all == types::entry_views(entries@),
            log_error(all.take(i as int)) is None,
            encoded@ == log_bytes(all.take(i as int)),
        decreases entries@.len() - i,
    {
        proof {
            assert(all.take(i + 1).drop_last() =~= all.take(i as int));
            assert(all.take(i + 1).last() == entries@[i as int]@);
        }
        match encode_entry(&entries[i], &mut encoded) {
            Ok(()) => {},
            Err(error) => {
                proof {
                    first_log_error_stays(all, i + 1);
                }
                return Err(error);
            },
        }
        i += 1;
    }
    assert(all.take(i as int) =~= all);
    Ok(encoded)
}

/// An error among the first entries is the error of all of them.
pub proof fn first_log_error_stays(entries: Seq<LogEntryV>, n: int)
    requires
        0 <= n <= entries.len(),
        log_error(entries.take(n)) is Some,
    ensures
        log_error(entries) == log_error(entries.take(n)),
    decreases entries.len(),
{
    if n < entries.len() {
        assert(entries.drop_last().take(n) =~= entries.take(n));
        first_log_error_stays(entries.drop_last(), n);
    } else {
        assert(entries.take(n) =~= entries);
    }
}

/// Decodes the record at the front of the bytes.
pub fn decode_entry(b: &[u8]) -> (r: DbResult<(LogEntry, usize)>)
    ensures
        match decoded_entry(b@) {
            Ok((entry, n)) => r matches Ok(found) && found.0@ == entry && found.1 == n,
            Err(error) => r matches Err(e) && e@ == error,
        },
{
    proof {
        reveal(decoded_entry);
        reveal(decoded_command);
    }
    let length: usize = b.len();
    if length < WAL_HEADER_LEN {
        return Err(wal_corruption("truncated WAL entry header"));
    }
    let code: u8 = b[0];
    let term: u64 = read_u64(b, 1);
    let index: u64 = read_u64(b, 9);
    let key_len: usize = read_u32(b, 17) as usize;
    let value_len: usize = read_u32(b, 21) as usize;
    let payload_len: usize = match key_len.checked_add(value_len) {
        Some(sum) => sum,
        None => {
            return Err(wal_corruption("WAL payload length overflow"));
        },
    };
    if length - WAL_HEADER_LEN < payload_len {
        return Err(wal_corruption("truncated WAL payload"));
    }
    let key_end: usize = WAL_HEADER_LEN + key_len;
    let end: usize = key_end + value_len;
    let key = match text_from_utf8(copy_range(b, WAL_HEADER_LEN, key_end)) {
        Ok(key) => key,
        Err(_) => {
            return Err(wal_corruption("invalid UTF-8 key in WAL"));
        },
    };
    let command = if code == WAL_OP_PUT {
        match text_from_utf8(copy_range(b, key_end, end)) {
            Ok(value) => Command::Put { key, value },
            Err(_) => {
                return Err(wal_corruption("invalid UTF-8 value in WAL"));
            },
        }
    } else if code == WAL_OP_DELETE {
        if value_len != 0 {
            return Err(wal_corruption("delete record must not carry a value payload"));
        }
        Command::Delete { key }
    } else {
        let message = join2("unknown WAL opcode ", decimal_text(code as u128).as_str());
        return Err(DbError::CorruptWal(message));
    };
    Ok((LogEntry { term, index, command }, end))
}

/// Decodes a whole log.
pub fn decode_entries(b: &[u8]) -> (r: DbResult<Vec<LogEntry>>)
    ensures
        match decoded_log(b@) {
            Ok(entries) => r matches Ok(found) && types::entry_views(found@) == entries,
            Err(error) => r matches Err(e) && e@ == error,
        },
{
    let mut entries: Vec<LogEntry> = Vec::new();
    let mut cursor: usize = 0;
    proof {
        assert(b@.skip(0) =~= b@);
        assert(types::entry_views(entries@) =~= Seq::<LogEntryV>::empty());
        if decoded_log(b@) is Ok {
            assert(decoded_log(b@)->Ok_0 =~= types::entry_views(entries@) + decoded_log(b@)->Ok_0);
        }
    }
    while cursor < b.len()
        invariant
            cursor <= b@.len(),
            match decoded_log(b@.skip(cursor as int)) {
                Ok(rest) => decoded_log(b@) == Ok::<Seq<LogEntryV>, DbErrorV>(
                    types::entry_views(entries@) + rest,
                ),
                Err(error) => decoded_log(b@) == Err::<Seq<LogEntryV>, DbErrorV>(error),
            },
        decreases b@.len() - cursor,
    {
        let rest = slice_subrange(b, cursor, b.len());
        assert(rest@ =~= b@.skip(cursor as int));
        proof {
            if decoded_entry(rest@) is Ok {
                record_is_canonical(rest@);
            }
        }
        let (entry, n) = match decode_entry(rest) {
            Ok(found) => found,
            Err(error) => {
                return Err(error);
            },
        };
        let ghost seen = types::entry_views(entries@);
        let ghost e = entry@;
        entries.push(entry);
        proof {
            assert(b@.skip(cursor as int).skip(n as int) =~= b@.skip(cursor + n));
            assert(types::entry_views(entries@) =~= seen.push(e));
            if decoded_log(b@.skip(cursor + n)) is Ok {
                let tail = decoded_log(b@.skip(cursor + n))->Ok_0;
                assert(seen + (seq![e] + tail) =~= seen.push(e) + tail);
            }
        }
        cursor += n;
    }
    assert(types::entry_views(entries@) + Seq::<LogEntryV>::empty() =~= types::entry_views(
        entries@,
    ));
    Ok(entries)
}

/// Refuses entries that start at index zero or leave a gap.
pub fn validate_entry_sequence(entries: &Vec<LogEntry>) -> (r: DbResult<()>)
    ensures
        match sequence_error(types::entry_views(entries@)) {
            None => r is Ok,
            Some(error) => r matches Err(e) && e@ == error,
        },
{
    let ghost all = types::entry_views(entries@);
    if entries.len() == 0 {
        return Ok(());
    }
    if entries[0].index == 0 {
        return Err(wal_corruption("non-contiguous index sequence: index 0 is invalid"));
    }
    let first: u128 = entries[0].index as u128;
    let mut offset: usize = 0;
    while offset < entries.len()
        invariant
            entries@.len() > 0,
            offset <= entries@.len(),
            all == types::entry_views(entries@),
            first == all[0].index,
            first > 0,
            gap_error(all, 0) == gap_error(all, offset as int),
        decreases entries@.len() - offset,
    {
        let expected: u128 = first + offset as u128;
        let found: u64 = entries[offset].index;
        assert(all[offset as int].index == found);
        if found as u128 != expected {
            assert(all[0].index + offset == expected);
            let message = join4(
                "non-contiguous index sequence: expected ",
                decimal_text(expected).as_str(),
                ", found ",
                decimal_text(found as u128).as_str(),
            );
            return Err(DbError::CorruptWal(message));
        }
        offset += 1;
    }
    Ok(())
}

/// Entries without a gap count up by one.
pub proof fn no_gap_means_contiguous(entries: Seq<LogEntryV>, k: int)
    requires
        0 <= k <= entries.len(),
    ensures
        gap_error(entries, k) is None <==> forall|j: int|
            k <= j < entries.len() ==> (#[trigger] entries[j]).index == entries[0].index + j,
    decreases entries.len() - k,
{
    if k < entries.len() {
        no_gap_means_contiguous(entries, k + 1);
        if entries[k].index == entries[0].index + k && gap_error(entries, k + 1) is None {
            assert forall|j: int| k <= j < entries.len() implies (#[trigger] entries[j]).index
                == entries[0].index + j by {}
        }
    }
}

/// Loading accepts entries exactly when they start above zero and count up by
/// one.
pub proof fn accepted_sequences(entries: Seq<LogEntryV>)
    ensures
        sequence_error(entries) is None <==> entries.len() == 0 || (entries[0].index > 0
            && memlog::contiguous(entries, entries[0].index as int)),
{
    no_gap_means_contiguous(entries, 0);
    if entries.len() > 0 && sequence_error(entries) is None {
        assert(memlog::contiguous(entries, entries[0].index as int));
    }
}

/// An entry can be recorded and read back on this machine.
pub open spec fn recordable(entry: LogEntryV) -> bool {
    &&& entry_error(entry) is None
    &&& key_bytes(entry.command).len() + value_bytes(entry.command).len() <= usize::MAX
}

/// A command is read back from its opcode, key and value.
proof fn command_reads_back(command: CommandV)
    ensures
        decoded_command(opcode(command), key_bytes(command), value_bytes(command)) == Ok::<
            CommandV,
            DbErrorV,
        >(command),
{
    reveal(decoded_command);
    encode_utf8_valid_utf8(state_machine::key_of(command));
    encode_utf8_decode_utf8(state_machine::key_of(command));
    if let CommandV::Put { key, value } = command {
        encode_utf8_valid_utf8(value);
        encode_utf8_decode_utf8(value);
    }
}

/// The fixed part of a record is read back from the front of any bytes.
proof fn header_reads_back(
    code: u8,
    term: u64,
    index: u64,
    key_len: u32,
    value_len: u32,
    rest: Seq<u8>,
)
    ensures
        header_bytes(code, term, index, key_len, value_len).len() == WAL_HEADER_LEN,
        ({
            let b = header_bytes(code, term, index, key_len, value_len) + rest;
            &&& b[0] == code
            &&& bytes::u64_at(b, 1) == term
            &&& bytes::u64_at(b, 9) == index
            &&& bytes::u32_at(b, 17) == key_len
            &&& bytes::u32_at(b, 21) == value_len
        }),
{
    reveal(header_bytes);
    bytes::le_lengths();
    let b = header_bytes(code, term, index, key_len, value_len) + rest;
    assert(b.subrange(1, 9) =~= bytes::le64(term));
    assert(b.subrange(9, 17) =~= bytes::le64(index));
    assert(b.subrange(17, 21) =~= bytes::le32(key_len));
    assert(b.subrange(21, 25) =~= bytes::le32(value_len));
    bytes::u64_reads_back(b, 1, term);
    bytes::u64_reads_back(b, 9, index);
    bytes::u32_reads_back(b, 17, key_len);
    bytes::u32_reads_back(b, 21, value_len);
}

/// A record is read back as the entry that was written, whatever follows it.
pub proof fn record_reads_back(entry: LogEntryV, rest: Seq<u8>)
    requires
        recordable(entry),
    ensures
        decoded_entry(entry_bytes(entry) + rest) == Ok::<(LogEntryV, int), DbErrorV>(
            (entry, entry_bytes(entry).len() as int),
        ),
        entry_bytes(entry).len() == WAL_HEADER_LEN + key_bytes(entry.command).len() + value_bytes(
            entry.command,
        ).len(),
{
    reveal(entry_bytes);
    reveal(decoded_entry);
    let b = entry_bytes(entry) + rest;
    let key = key_bytes(entry.command);
    let value = value_bytes(entry.command);
    let code = opcode(entry.command);
    let header = header_bytes(
        code,
        entry.term,
        entry.index,
        key.len() as u32,
        value.len() as u32,
    );
    let h = WAL_HEADER_LEN as int;
    header_reads_back(
        code,
        entry.term,
        entry.index,
        key.len() as u32,
        value.len() as u32,
        key + value + rest,
    );
    assert(b =~= header + (key + value + rest));
    assert(b.subrange(h, h + key.len()) =~= key);
    assert(b.subrange(h + key.len(), h + key.len() + value.len()) =~= value);
    command_reads_back(entry.command);
}

/// The records of one part after those of another are the records of both.
pub proof fn log_bytes_in_parts(a: Seq<LogEntryV>, b: Seq<LogEntryV>)
    ensures
        log_bytes(a + b) == log_bytes(a) + log_bytes(b),
    decreases b.len(),
{
    if b.len() == 0 {
        assert(a + b =~= a);
        assert(log_bytes(a) + log_bytes(b) =~= log_bytes(a));
    } else {
        assert((a + b).drop_last() =~= a + b.drop_last());
        log_bytes_in_parts(a, b.drop_last());
        assert(log_bytes(a) + (log_bytes(b.drop_last()) + entry_bytes(b.last())) =~= log_bytes(a)
            + log_bytes(b.drop_last()) + entry_bytes(b.last()));
    }
}

/// The records of one entry are its record.
pub proof fn log_bytes_of_one(entry: LogEntryV)
    ensures
        log_bytes(seq![entry]) == entry_bytes(entry),
{
    assert(seq![entry].drop_last() =~= Seq::<LogEntryV>::empty());
    assert(log_bytes(Seq::<LogEntryV>::empty()) =~= Seq::<u8>::empty());
    assert(log_bytes(seq![entry]) =~= entry_bytes(entry));
}

/// A log file gives back the entries that were recorded in it.
pub proof fn log_reads_back(entries: Seq<LogEntryV>)
    requires
        forall|i: int| 0 <= i < entries.len() ==> recordable(#[trigger] entries[i]),
    ensures
        decoded_log(log_bytes(entries)) == Ok::<Seq<LogEntryV>, DbErrorV>(entries),
    decreases entries.len(),
{
    if entries.len() > 0 {
        let first = entries[0];
        let rest = entries.skip(1);
        assert(entries =~= seq![first] + rest);
        log_bytes_in_parts(seq![first], rest);
        log_bytes_of_one(first);
        record_reads_back(first, log_bytes(rest));
        let b = log_bytes(entries);
        assert(b.skip(entry_bytes(first).len() as int) =~= log_bytes(rest));
        assert forall|i: int| 0 <= i < rest.len() implies recordable(#[trigger] rest[i]) by {
            assert(recordable(entries[i + 1]));
        }
        log_reads_back(rest);
    } else {
        assert(entries =~= Seq::<LogEntryV>::empty());
    }
}

/// A command has one form: what decodes to it is its own opcode and bytes.
proof fn command_is_canonical(code: u8, key: Seq<u8>, value: Seq<u8>)
    requires
        decoded_command(code, key, value) is Ok,
    ensures
        opcode(decoded_command(code, key, value)->Ok_0) == code,
        key_bytes(decoded_command(code, key, value)->Ok_0) == key,
        value_bytes(decoded_command(code, key, value)->Ok_0) == value,
{
    reveal(decoded_command);
    decode_utf8_encode_utf8(key);
    if code == WAL_OP_PUT {
        decode_utf8_encode_utf8(value);
    } else {
        assert(value =~= Seq::<u8>::empty());
    }
}

/// A record has one form: bytes that decode to an entry begin with its record.
pub proof fn record_is_canonical(b: Seq<u8>)
    requires
        decoded_entry(b) is Ok,
    ensures
        recordable(decoded_entry(b)->Ok_0.0),
        WAL_HEADER_LEN <= decoded_entry(b)->Ok_0.1 <= b.len(),
        b.take(decoded_entry(b)->Ok_0.1) == entry_bytes(decoded_entry(b)->Ok_0.0),
{
    reveal(decoded_entry);
    let (entry, n) = decoded_entry(b)->Ok_0;
    let h = WAL_HEADER_LEN as int;
    let key_len = bytes::u32_at(b, 17);
    let value_len = bytes::u32_at(b, 21);
    let key = b.subrange(h, h + key_len);
    let value = b.subrange(h + key_len, n);
    command_is_canonical(b[0], key, value);
    assert(b.take(n) == entry_bytes(entry)) by {
        reveal(entry_bytes);
        reveal(header_bytes);
        bytes::u64_rewrites(b, 1);
        bytes::u64_rewrites(b, 9);
        bytes::u32_rewrites(b, 17);
        bytes::u32_rewrites(b, 21);
        assert(b.take(n) =~= seq![b[0]] + b.subrange(1, 9) + b.subrange(9, 17) + b.subrange(17, 21)
            + b.subrange(21, 25) + key + value);
    }
}

/// A log has one form: bytes that decode to entries are their records, and
/// every decoded entry can be recorded again.
pub proof fn log_is_canonical(b: Seq<u8>)
    requires
        decoded_log(b) is Ok,
    ensures
        log_bytes(decoded_log(b)->Ok_0) == b,
        forall|i: int|
            0 <= i < decoded_log(b)->Ok_0.len() ==> recordable(#[trigger] decoded_log(b)->Ok_0[i]),
    decreases b.len(),
{
    if b.len() > 0 {
        record_is_canonical(b);
        let (entry, n) = decoded_entry(b)->Ok_0;
        let rest = decoded_log(b.skip(n))->Ok_0;
        log_is_canonical(b.skip(n));
        log_bytes_in_parts(seq![entry], rest);
        log_bytes_of_one(entry);
        assert(b =~= b.take(n) + b.skip(n));
        let all = decoded_log(b)->Ok_0;
        assert(all == seq![entry] + rest);
        assert forall|i: int| 0 <= i < all.len() implies recordable(#[trigger] all[i]) by {
            if i > 0 {
                assert(all[i] == rest[i - 1]);
            }
        }
    } else {
        assert(b =~= Seq::<u8>::empty());
    }
}

/// Entries that can each be recorded can be recorded together.
pub proof fn recordable_log(entries: Seq<LogEntryV>)
    requires
        forall|i: int| 0 <= i < entries.len() ==> recordable(#[trigger] entries[i]),
    ensures
        log_error(entries) is None,
    decreases entries.len(),
{
    if entries.len() > 0 {
        let rest = entries.drop_last();
        assert forall|i: int| 0 <= i < rest.len() implies recordable(#[trigger] rest[i]) by {
            assert(recordable(entries[i]));
        }
        recordable_log(rest);
        assert(recordable(entries[entries.len() - 1]));
    }
}

/// A record cut short is refused.
pub proof fn truncated_records_are_refused(entry: LogEntryV, n: int)
    requires
        recordable(entry),
        0 <= n < entry_bytes(entry).len(),
    ensures
        decoded_entry(entry_bytes(entry).take(n)) is Err,
{
    let b = entry_bytes(entry);
    let cut = b.take(n);
    if decoded_entry(cut) is Ok {
        record_is_canonical(cut);
        let (other, m) = decoded_entry(cut)->Ok_0;
        assert(b =~= entry_bytes(other) + b.skip(m));
        record_reads_back(other, b.skip(m));
        record_reads_back(entry, Seq::empty());
        assert(b + Seq::<u8>::empty() =~= b);
    }
}

/// A log that ends inside a record is refused, whatever comes before it.
pub proof fn truncated_logs_are_refused(entries: Seq<LogEntryV>, entry: LogEntryV, n: int)
    requires
        forall|i: int| 0 <= i < entries.len() ==> recordable(#[trigger] entries[i]),
        recordable(entry),
        0 < n < entry_bytes(entry).len(),
    ensures
        decoded_log(log_bytes(entries) + entry_bytes(entry).take(n)) is Err,
        loaded_log(log_bytes(entries) + entry_bytes(entry).take(n)) is Err,
    decreases entries.len(),
{
    let cut = entry_bytes(entry).take(n);
    let b = log_bytes(entries) + cut;
    if entries.len() == 0 {
        truncated_records_are_refused(entry, n);
        assert(b =~= cut);
    } else {
        let first = entries[0];
        let rest = entries.skip(1);
        assert(entries =~= seq![first] + rest);
        log_bytes_in_parts(seq![first], rest);
        log_bytes_of_one(first);
        assert(b =~= entry_bytes(first) + (log_bytes(rest) + cut));
        record_reads_back(first, log_bytes(rest) + cut);
        assert(b.skip(entry_bytes(first).len() as int) =~= log_bytes(rest) + cut);
        assert forall|i: int| 0 <= i < rest.len() implies recordable(#[trigger] rest[i]) by {
            assert(recordable(entries[i + 1]));
        }
        truncated_logs_are_refused(rest, entry, n);
    }
}

} // verus!
