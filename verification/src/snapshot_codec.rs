//! The byte formats of snapshots, of the commit index and of term and vote.
use vstd::prelude::*;
use vstd::slice::*;
use vstd::utf8::*;

use crate::bytes;
use crate::bytes::{copy_range, put_bytes, put_u32, put_u64, read_u32, read_u64};
use crate::ordered;
use crate::ordered::OrderedMap;
use crate::state_machine::KvMap;
use crate::text;
use crate::text::{decimal_text, join2, join3, text_from_utf8};
use crate::types::{DbError, DbErrorV, DbResult, Index, NodeId, Term};
use crate::wal_codec;
use crate::wal_codec::wal_corruption;

verus! {

pub const COMMIT_INDEX_META_LEN: usize = 8;

pub const TERM_VOTE_META_LEN: usize = 17;

pub const SNAPSHOT_HEADER_LEN: usize = 20;

pub const SNAPSHOT_KV_HEADER_LEN: usize = 8;

/// The term that a node has seen and the vote that it has cast in it.
#[derive(Debug, Clone, Copy, PartialEq, Eq, Structural)]
pub struct PersistentRaftMeta {
    pub current_term: Term,
    pub voted_for: Option<NodeId>,
}

impl Default for PersistentRaftMeta {
    fn default() -> (r: Self)
        ensures
            r == no_meta(),
    {
        PersistentRaftMeta { current_term: 0, voted_for: None }
    }
}

/// Term zero without a vote: what a node knows that has persisted nothing.
pub open spec fn no_meta() -> PersistentRaftMeta {
    PersistentRaftMeta { current_term: 0, voted_for: None }
}

/// The state that everything through an index has built.
#[derive(Debug, PartialEq, Eq)]
pub struct SnapshotData {
    pub last_included_index: Index,
    pub last_included_term: Term,
    pub state: OrderedMap<String>,
}

/// A [`SnapshotData`] over the contents of its state.
#[verifier::ext_equal]
pub struct SnapshotDataV {
    pub last_included_index: Index,
    pub last_included_term: Term,
    pub state: KvMap,
}

impl View for SnapshotData {
    type V = SnapshotDataV;

    open spec fn view(&self) -> SnapshotDataV {
        SnapshotDataV {
            last_included_index: self.last_included_index,
            last_included_term: self.last_included_term,
            state: self.state@,
        }
    }
}

impl SnapshotData {
    pub open spec fn wf(&self) -> bool {
        self.state.wf()
    }
}

impl Clone for SnapshotData {
    fn clone(&self) -> (r: Self)
        ensures
            r@ == self@,
            self.wf() ==> r.wf(),
    {
        SnapshotData {
            last_included_index: self.last_included_index,
            last_included_term: self.last_included_term,
            state: self.state.clone(),
        }
    }
}

/// A key with its value.
pub type Pair = (Seq<char>, Seq<char>);

/// Why a pair has no record, if it has none.
pub open spec fn pair_error(pair: Pair) -> Option<DbErrorV> {
    if encode_utf8(pair.0).len() > u32::MAX {
        Some(wal_codec::corrupt("snapshot key length exceeds format limits"@))
    } else if encode_utf8(pair.1).len() > u32::MAX {
        Some(wal_codec::corrupt("snapshot value length exceeds format limits"@))
    } else {
        None
    }
}

/// The record of a pair: the two lengths, then key and value.
#[verifier::opaque]
pub open spec fn pair_bytes(pair: Pair) -> Seq<u8> {
    bytes::le32(encode_utf8(pair.0).len() as u32) + bytes::le32(encode_utf8(pair.1).len() as u32)
        + encode_utf8(pair.0) + encode_utf8(pair.1)
}

/// The first pair, in order, that has no record.
pub open spec fn pairs_error(pairs: Seq<Pair>) -> Option<DbErrorV>
    decreases pairs.len(),
{
    if pairs.len() == 0 {
        None
    } else if pairs_error(pairs.drop_last()) is Some {
        pairs_error(pairs.drop_last())
    } else {
        pair_error(pairs.last())
    }
}

/// The records of the pairs, one after the other.
pub open spec fn pairs_bytes(pairs: Seq<Pair>) -> Seq<u8>
    decreases pairs.len(),
{
    if pairs.len() == 0 {
        Seq::empty()
    } else {
        pairs_bytes(pairs.drop_last()) + pair_bytes(pairs.last())
    }
}

/// Why a snapshot has no file, if it has none.
pub open spec fn snapshot_error(snapshot: SnapshotDataV) -> Option<DbErrorV> {
    let pairs = ordered::sorted_pairs(snapshot.state);
    if pairs.len() > u32::MAX {
        Some(wal_codec::corrupt("snapshot key count exceeds format limits"@))
    } else {
        pairs_error(pairs)
    }
}

/// The file of a snapshot: index, term, number of pairs, and the pairs in
/// ascending key order.
#[verifier::opaque]
pub open spec fn snapshot_bytes(snapshot: SnapshotDataV) -> Seq<u8> {
    let pairs = ordered::sorted_pairs(snapshot.state);
    bytes::le64(snapshot.last_included_index) + bytes::le64(snapshot.last_included_term)
        + bytes::le32(pairs.len() as u32) + pairs_bytes(pairs)
}

/// The pair whose record stands at the front, and the length of the record.
#[verifier::opaque]
pub open spec fn decoded_pair(b: Seq<u8>) -> Result<(Pair, int), DbErrorV> {
    if b.len() < SNAPSHOT_KV_HEADER_LEN {
        Err(wal_codec::corrupt("truncated snapshot key/value header"@))
    } else {
        let key_end = SNAPSHOT_KV_HEADER_LEN + bytes::u32_at(b, 0);
        let end = key_end + bytes::u32_at(b, 4);
        let key = b.subrange(SNAPSHOT_KV_HEADER_LEN as int, key_end);
        let value = b.subrange(key_end, end);
        if bytes::u32_at(b, 0) + bytes::u32_at(b, 4) > usize::MAX {
            Err(wal_codec::corrupt("snapshot payload length overflow"@))
        } else if b.len() < end {
            Err(wal_codec::corrupt("truncated snapshot payload"@))
        } else if !valid_utf8(key) {
            Err(wal_codec::corrupt("invalid UTF-8 key in snapshot"@))
        } else if !valid_utf8(value) {
            Err(wal_codec::corrupt("invalid UTF-8 value in snapshot"@))
        } else {
            Ok(((decode_utf8(key), decode_utf8(value)), end))
        }
    }
}

/// The first `n` pairs of the bytes and what follows them, or the first fault.
pub open spec fn decoded_pairs(b: Seq<u8>, n: nat) -> Result<(Seq<Pair>, Seq<u8>), DbErrorV>
    decreases n,
{
    if n == 0 {
        Ok((Seq::empty(), b))
    } else {
        match decoded_pair(b) {
            Err(error) => Err(error),
            Ok((pair, length)) => match decoded_pairs(b.skip(length), (n - 1) as nat) {
                Err(error) => Err(error),
                Ok((pairs, rest)) => Ok((seq![pair] + pairs, rest)),
            },
        }
    }
}

/// The snapshot that a file gives back; an empty file holds none.
#[verifier::opaque]
pub open spec fn decoded_snapshot(b: Seq<u8>) -> Result<Option<SnapshotDataV>, DbErrorV> {
    if b.len() == 0 {
        Ok(None)
    } else if b.len() < SNAPSHOT_HEADER_LEN {
        Err(wal_codec::corrupt("truncated snapshot header"@))
    } else {
        match decoded_pairs(b.skip(SNAPSHOT_HEADER_LEN as int), bytes::u32_at(b, 16) as nat) {
            Err(error) => Err(error),
            Ok((pairs, rest)) => if rest.len() != 0 {
                Err(wal_codec::corrupt("snapshot contains trailing bytes"@))
            } else {
                Ok(
                    Some(
                        SnapshotDataV {
                            last_included_index: bytes::u64_at(b, 0),
                            last_included_term: bytes::u64_at(b, 8),
                            state: ordered::map_of(pairs),
                        },
                    ),
                )
            },
        }
    }
}

/// The commit index that a file gives back; an empty file holds zero.
pub open spec fn decoded_commit_index(b: Seq<u8>) -> Result<Index, DbErrorV> {
    if b.len() == 0 {
        Ok(0)
    } else if b.len() != COMMIT_INDEX_META_LEN {
        Err(
            wal_codec::corrupt(
                "commit-index metadata has invalid length "@ + text::decimal(b.len())
                    + ", expected 8"@,
            ),
        )
    } else {
        Ok(bytes::u64_at(b, 0))
    }
}

/// The file of a term and vote: the term, whether there is a vote, and the
/// vote.
#[verifier::opaque]
pub open spec fn meta_bytes(meta: PersistentRaftMeta) -> Seq<u8> {
    match meta.voted_for {
        Some(id) => bytes::le64(meta.current_term) + seq![1u8] + bytes::le64(id),
        None => bytes::le64(meta.current_term) + seq![0u8] + bytes::le64(0),
    }
}

/// The term and vote that a file gives back; an empty file holds neither.
#[verifier::opaque]
pub open spec fn decoded_meta(b: Seq<u8>) -> Result<PersistentRaftMeta, DbErrorV> {
    if b.len() == 0 {
        Ok(no_meta())
    } else if b.len() != TERM_VOTE_META_LEN {
        Err(
            wal_codec::corrupt(
                "raft metadata has invalid length "@ + text::decimal(b.len()) + ", expected 17"@,
            ),
        )
    } else if b[8] > 1 {
        Err(
            wal_codec::corrupt(
                "raft vote metadata has invalid presence flag "@ + text::decimal(b[8] as nat),
            ),
        )
    } else {
        Ok(
            PersistentRaftMeta {
                current_term: bytes::u64_at(b, 0),
                voted_for: if b[8] == 1 {
                    Some(bytes::u64_at(b, 9))
                } else {
                    None
                },
            },
        )
    }
}

/// Encodes a commit index.
pub fn encode_commit_index(commit_index: Index) -> (r: Vec<u8>)
    ensures
        r@ == bytes::le64(commit_index),
{
    let mut r: Vec<u8> = Vec::new();
    put_u64(&mut r, commit_index);
    assert(r@ =~= bytes::le64(commit_index));
    r
}

/// Decodes a commit index.
pub fn decode_commit_index(b: &[u8]) -> (r: DbResult<Index>)
    ensures
        match decoded_commit_index(b@) {
            Ok(index) => r == Ok::<Index, DbError>(index),
            Err(error) => r matches Err(e) && e@ == error,
        },
{
    if b.len() == 0 {
        return Ok(0);
    }
    if b.len() != COMMIT_INDEX_META_LEN {
        let message = join3(
            "commit-index metadata has invalid length ",
            decimal_text(b.len() as u128).as_str(),
            ", expected 8",
        );
        return Err(DbError::CorruptWal(message));
    }
    Ok(read_u64(b, 0))
}

/// Encodes a term and vote.
pub fn encode_meta(current_term: Term, voted_for: Option<NodeId>) -> (r: Vec<u8>)
    ensures
        r@ == meta_bytes(PersistentRaftMeta { current_term, voted_for }),
{
    proof {
        reveal(meta_bytes);
    }
    let mut r: Vec<u8> = Vec::new();
    put_u64(&mut r, current_term);
    match voted_for {
        Some(id) => {
            r.push(1);
            put_u64(&mut r, id);
        },
        None => {
            r.push(0);
            put_u64(&mut r, 0);
        },
    }
    assert(r@ =~= meta_bytes(PersistentRaftMeta { current_term, voted_for }));
    r
}

/// Decodes a term and vote.
pub fn decode_meta(b: &[u8]) -> (r: DbResult<PersistentRaftMeta>)
    ensures
        match decoded_meta(b@) {
            Ok(meta) => r == Ok::<PersistentRaftMeta, DbError>(meta),
            Err(error) => r matches Err(e) && e@ == error,
        },
{
    proof {
        reveal(decoded_meta);
    }
    if b.len() == 0 {
        return Ok(PersistentRaftMeta::default());
    }
    if b.len() != TERM_VOTE_META_LEN {
        let message = join3(
            "raft metadata has invalid length ",
            decimal_text(b.len() as u128).as_str(),
            ", expected 17",
        );
        return Err(DbError::CorruptWal(message));
    }
    let current_term: u64 = read_u64(b, 0);
    let vote_flag: u8 = b[8];
    if vote_flag > 1 {
        let message = join2(
            "raft vote metadata has invalid presence flag ",
            decimal_text(vote_flag as u128).as_str(),
        );
        return Err(DbError::CorruptWal(message));
    }
    let voted_for: Option<u64> = if vote_flag == 1 {
        Some(read_u64(b, 9))
    } else {
        None
    };
    Ok(PersistentRaftMeta { current_term, voted_for })
}

/// Encodes a snapshot.
pub fn encode_snapshot(snapshot: &SnapshotData) -> (r: DbResult<Vec<u8>>)
    requires
        snapshot.wf(),
    ensures
        match snapshot_error(snapshot@) {
            None => r matches Ok(encoded) && encoded@ == snapshot_bytes(snapshot@),
            Some(error) => r matches Err(e) && e@ == error,
        },
{
    let ghost pairs = snapshot.state.pairs();
    proof {
        snapshot.state.pairs_are_sorted();
        reveal(snapshot_bytes);
    }
    let count: usize = snapshot.state.len();
    if count as u64 > u32::MAX as u64 {
        return Err(wal_corruption("snapshot key count exceeds format limits"));
    }
    let mut r: Vec<u8> = Vec::new();
    put_u64(&mut r, snapshot.last_included_index);
    put_u64(&mut r, snapshot.last_included_term);
    put_u32(&mut r, count as u32);
    let ghost header = r@;
    let mut i: usize = 0;
    while i < count
        invariant
            i <= count,
            count == snapshot.state.entries@.len(),
            pairs == snapshot.state.pairs(),
            pairs == ordered::sorted_pairs(snapshot@.state),
            count <= u32::MAX,
            pairs_error(pairs.take(i as int)) is None,
            r@ == header + pairs_bytes(pairs.take(i as int)),
        decreases count - i,
    {
        let ghost before = r@;
        let ghost pair = pairs[i as int];
        proof {
            reveal(pair_bytes);
            assert(pairs.take(i + 1).drop_last() =~= pairs.take(i as int));
            assert(pairs.take(i + 1).last() == pair);
        }
        let key_data = snapshot.state.entries[i].0.as_str().as_bytes();
        let value_data = snapshot.state.entries[i].1.as_str().as_bytes();
        if key_data.len() as u64 > u32::MAX as u64 {
            proof {
                first_pairs_error_stays(pairs, i + 1);
            }
            return Err(wal_corruption("snapshot key length exceeds format limits"));
        }
        if value_data.len() as u64 > u32::MAX as u64 {
            proof {
                first_pairs_error_stays(pairs, i + 1);
            }
            return Err(wal_corruption("snapshot value length exceeds format limits"));
        }
        put_u32(&mut r, key_data.len() as u32);
        put_u32(&mut r, value_data.len() as u32);
        put_bytes(&mut r, key_data);
        put_bytes(&mut r, value_data);
        assert(r@ =~= before + pair_bytes(pair));
        assert(before + pair_bytes(pair) =~= header + pairs_bytes(pairs.take(i + 1)));
        i += 1;
    }
    assert(pairs.take(i as int) =~= pairs);
    assert(r@ =~= snapshot_bytes(snapshot@));
    Ok(r)
}

/// An error among the first pairs is the error of all of them.
proof fn first_pairs_error_stays(pairs: Seq<Pair>, n: int)
    requires
        0 <= n <= pairs.len(),
        pairs_error(pairs.take(n)) is Some,
    ensures
        pairs_error(pairs) == pairs_error(pairs.take(n)),
    decreases pairs.len(),
{
    if n < pairs.len() {
        assert(pairs.drop_last().take(n) =~= pairs.take(n));
        first_pairs_error_stays(pairs.drop_last(), n);
    } else {
        assert(pairs.take(n) =~= pairs);
    }
}

/// Decodes the pair at the front of the bytes.
fn decode_pair(b: &[u8]) -> (r: DbResult<((String, String), usize)>)
    ensures
        match decoded_pair(b@) {
            Ok((pair, n)) => r matches Ok(found) && found.0.0@ == pair.0 && found.0.1@ == pair.1
                && found.1 == n && n <= b@.len(),
            Err(error) => r matches Err(e) && e@ == error,
        },
{
    proof {
        reveal(decoded_pair);
    }
    let length: usize = b.len();
    if length < SNAPSHOT_KV_HEADER_LEN {
        return Err(wal_corruption("truncated snapshot key/value header"));
    }
    let key_len: usize = read_u32(b, 0) as usize;
    let value_len: usize = read_u32(b, 4) as usize;
    let payload_len: usize = match key_len.checked_add(value_len) {
        Some(sum) => sum,
        None => {
            return Err(wal_corruption("snapshot payload length overflow"));
        },
    };
    if length - SNAPSHOT_KV_HEADER_LEN < payload_len {
        return Err(wal_corruption("truncated snapshot payload"));
    }
    let key_end: usize = SNAPSHOT_KV_HEADER_LEN + key_len;
    let end: usize = key_end + value_len;
    let key = match text_from_utf8(copy_range(b, SNAPSHOT_KV_HEADER_LEN, key_end)) {
        Ok(key) => key,
        Err(_) => {
            return Err(wal_corruption("invalid UTF-8 key in snapshot"));
        },
    };
    let value = match text_from_utf8(copy_range(b, key_end, end)) {
        Ok(value) => value,
        Err(_) => {
            return Err(wal_corruption("invalid UTF-8 value in snapshot"));
        },
    };
    Ok(((key, value), end))
}

/// Decodes a snapshot.
pub fn decode_snapshot(b: &[u8]) -> (r: DbResult<Option<SnapshotData>>)
    ensures
        match decoded_snapshot(b@) {
            Ok(Some(snapshot)) => r matches Ok(Some(found)) && found@ == snapshot && found.wf(),
            Ok(None) => r == Ok::<Option<SnapshotData>, DbError>(None),
            Err(error) => r matches Err(e) && e@ == error,
        },
{
    proof {
        reveal(decoded_snapshot);
    }
    if b.len() == 0 {
        return Ok(None);
    }
    if b.len() < SNAPSHOT_HEADER_LEN {
        return Err(wal_corruption("truncated snapshot header"));
    }
    let last_included_index: u64 = read_u64(b, 0);
    let last_included_term: u64 = read_u64(b, 8);
    let pair_count: u32 = read_u32(b, 16);
    let mut cursor: usize = SNAPSHOT_HEADER_LEN;
    let mut state: OrderedMap<String> = OrderedMap::new();
    let mut i: u32 = 0;
    let ghost mut seen: Seq<Pair> = Seq::empty();
    let ghost whole = decoded_pairs(b@.skip(SNAPSHOT_HEADER_LEN as int), pair_count as nat);
    proof {
        if whole is Ok {
            assert(whole->Ok_0.0 =~= seen + whole->Ok_0.0);
        }
    }
    while i < pair_count
        invariant
            i <= pair_count,
            cursor <= b@.len(),
            state.wf(),
            state@ == ordered::map_of(seen),
            match decoded_pairs(b@.skip(cursor as int), (pair_count - i) as nat) {
                Ok((pairs, rest)) => whole == Ok::<(Seq<Pair>, Seq<u8>), DbErrorV>(
                    (seen + pairs, rest),
                ),
                Err(error) => whole == Err::<(Seq<Pair>, Seq<u8>), DbErrorV>(error),
            },
            whole == decoded_pairs(b@.skip(SNAPSHOT_HEADER_LEN as int), pair_count as nat),
            b@.len() >= SNAPSHOT_HEADER_LEN,
            pair_count == bytes::u32_at(b@, 16),
            decoded_snapshot(b@) == (match whole {
                Err(error) => Err::<Option<SnapshotDataV>, DbErrorV>(error),
                Ok((pairs, rest)) => if rest.len() != 0 {
                    Err(wal_codec::corrupt("snapshot contains trailing bytes"@))
                } else {
                    Ok(
                        Some(
                            SnapshotDataV {
                                last_included_index: bytes::u64_at(b@, 0),
                                last_included_term: bytes::u64_at(b@, 8),
                                state: ordered::map_of(pairs),
                            },
                        ),
                    )
                },
            }),
        decreases pair_count - i,
    {
        let rest = slice_subrange(b, cursor, b.len());
        assert(rest@ =~= b@.skip(cursor as int));
        let ((key, value), n) = match decode_pair(rest) {
            Ok(found) => found,
            Err(error) => {
                return Err(error);
            },
        };
        let ghost pair = (key@, value@);
        state.insert(key, value);
        proof {
            let before = seen;
            seen = seen.push(pair);
            assert(seen.drop_last() =~= before);
            assert(b@.skip(cursor as int).skip(n as int) =~= b@.skip(cursor + n));
            let tail = decoded_pairs(b@.skip(cursor + n), (pair_count - i - 1) as nat);
            if tail is Ok {
                assert(before + (seq![pair] + tail->Ok_0.0) =~= seen + tail->Ok_0.0);
            }
        }
        cursor += n;
        i += 1;
    }
    assert(seen + Seq::<Pair>::empty() =~= seen);
    if cursor != b.len() {
        return Err(wal_corruption("snapshot contains trailing bytes"));
    }
    Ok(Some(SnapshotData { last_included_index, last_included_term, state }))
}

/// A commit index is read back as it was written.
pub proof fn commit_index_reads_back(index: Index)
    ensures
        decoded_commit_index(bytes::le64(index)) == Ok::<Index, DbErrorV>(index),
{
    bytes::le_lengths();
    let b = bytes::le64(index);
    assert(b.subrange(0, 8) =~= b);
    bytes::u64_reads_back(b, 0, index);
}

/// A term and vote are read back as they were written.
pub proof fn meta_reads_back(meta: PersistentRaftMeta)
    ensures
        decoded_meta(meta_bytes(meta)) == Ok::<PersistentRaftMeta, DbErrorV>(meta),
{
    reveal(meta_bytes);
    reveal(decoded_meta);
    bytes::le_lengths();
    let b = meta_bytes(meta);
    assert(b.subrange(0, 8) =~= bytes::le64(meta.current_term));
    bytes::u64_reads_back(b, 0, meta.current_term);
    if let Some(id) = meta.voted_for {
        assert(b.subrange(9, 17) =~= bytes::le64(id));
        bytes::u64_reads_back(b, 9, id);
    }
}

/// A pair can be recorded and read back on this machine.
pub open spec fn recordable_pair(pair: Pair) -> bool {
    &&& pair_error(pair) is None
    &&& encode_utf8(pair.0).len() + encode_utf8(pair.1).len() <= usize::MAX
}

/// A pair is read back as it was written, whatever follows it.
proof fn pair_reads_back(pair: Pair, rest: Seq<u8>)
    requires
        recordable_pair(pair),
    ensures
        decoded_pair(pair_bytes(pair) + rest) == Ok::<(Pair, int), DbErrorV>(
            (pair, pair_bytes(pair).len() as int),
        ),
{
    reveal(pair_bytes);
    reveal(decoded_pair);
    bytes::le_lengths();
    let key = encode_utf8(pair.0);
    let value = encode_utf8(pair.1);
    let b = pair_bytes(pair) + rest;
    assert(b.subrange(0, 4) =~= bytes::le32(key.len() as u32));
    assert(b.subrange(4, 8) =~= bytes::le32(value.len() as u32));
    bytes::u32_reads_back(b, 0, key.len() as u32);
    bytes::u32_reads_back(b, 4, value.len() as u32);
    let h = SNAPSHOT_KV_HEADER_LEN as int;
    assert(b.subrange(h, h + key.len()) =~= key);
    assert(b.subrange(h + key.len(), h + key.len() + value.len()) =~= value);
    encode_utf8_valid_utf8(pair.0);
    encode_utf8_decode_utf8(pair.0);
    encode_utf8_valid_utf8(pair.1);
    encode_utf8_decode_utf8(pair.1);
}

proof fn pairs_bytes_in_parts(a: Seq<Pair>, b: Seq<Pair>)
    ensures
        pairs_bytes(a + b) == pairs_bytes(a) + pairs_bytes(b),
    decreases b.len(),
{
    if b.len() == 0 {
        assert(a + b =~= a);
        assert(pairs_bytes(a) + pairs_bytes(b) =~= pairs_bytes(a));
    } else {
        assert((a + b).drop_last() =~= a + b.drop_last());
        pairs_bytes_in_parts(a, b.drop_last());
        assert(pairs_bytes(a) + (pairs_bytes(b.drop_last()) + pair_bytes(b.last()))
            =~= pairs_bytes(a) + pairs_bytes(b.drop_last()) + pair_bytes(b.last()));
    }
}

/// Pairs are read back as they were written.
proof fn pairs_read_back(pairs: Seq<Pair>)
    requires
        forall|i: int| 0 <= i < pairs.len() ==> recordable_pair(#[trigger] pairs[i]),
    ensures
        decoded_pairs(pairs_bytes(pairs), pairs.len()) == Ok::<(Seq<Pair>, Seq<u8>), DbErrorV>(
            (pairs, Seq::empty()),
        ),
    decreases pairs.len(),
{
    if pairs.len() == 0 {
        assert(pairs =~= Seq::<Pair>::empty());
    } else {
        let first = pairs[0];
        let rest = pairs.skip(1);
        assert(pairs =~= seq![first] + rest);
        pairs_bytes_in_parts(seq![first], rest);
        assert(seq![first].drop_last() =~= Seq::<Pair>::empty());
        assert(pairs_bytes(Seq::<Pair>::empty()) =~= Seq::<u8>::empty());
        assert(pairs_bytes(seq![first]) =~= pair_bytes(first));
        pair_reads_back(first, pairs_bytes(rest));
        assert(pairs_bytes(pairs).skip(pair_bytes(first).len() as int) =~= pairs_bytes(rest));
        assert forall|i: int| 0 <= i < rest.len() implies recordable_pair(#[trigger] rest[i]) by {
            assert(recordable_pair(pairs[i + 1]));
        }
        pairs_read_back(rest);
    }
}

/// A snapshot can be written to a file and read back on this machine.
pub open spec fn recordable_snapshot(snapshot: SnapshotDataV) -> bool {
    let pairs = ordered::sorted_pairs(snapshot.state);
    &&& ordered::ascending(pairs)
    &&& ordered::map_of(pairs) == snapshot.state
    &&& pairs.len() <= u32::MAX
    &&& forall|i: int| 0 <= i < pairs.len() ==> recordable_pair(#[trigger] pairs[i])
}

/// A snapshot is read back as it was written.
pub proof fn snapshot_reads_back(snapshot: SnapshotDataV)
    requires
        recordable_snapshot(snapshot),
    ensures
        decoded_snapshot(snapshot_bytes(snapshot)) == Ok::<Option<SnapshotDataV>, DbErrorV>(
            Some(snapshot),
        ),
{
    reveal(snapshot_bytes);
    reveal(decoded_snapshot);
    bytes::le_lengths();
    let pairs = ordered::sorted_pairs(snapshot.state);
    let b = snapshot_bytes(snapshot);
    assert(b.subrange(0, 8) =~= bytes::le64(snapshot.last_included_index));
    assert(b.subrange(8, 16) =~= bytes::le64(snapshot.last_included_term));
    assert(b.subrange(16, 20) =~= bytes::le32(pairs.len() as u32));
    bytes::u64_reads_back(b, 0, snapshot.last_included_index);
    bytes::u64_reads_back(b, 8, snapshot.last_included_term);
    bytes::u32_reads_back(b, 16, pairs.len() as u32);
    assert(b.skip(20) =~= pairs_bytes(pairs));
    pairs_read_back(pairs);
}

/// A pair is read whatever follows it.
proof fn pairs_do_not_look_on(b: Seq<u8>, more: Seq<u8>)
    requires
        decoded_pair(b) is Ok,
    ensures
        decoded_pair(b + more) == decoded_pair(b),
        decoded_pair(b)->Ok_0.1 <= b.len(),
        decoded_pair(b)->Ok_0.1 >= SNAPSHOT_KV_HEADER_LEN,
{
    reveal(decoded_pair);
    reveal(bytes::u32_at);
    let longer = b + more;
    assert(longer.subrange(0, 4) =~= b.subrange(0, 4));
    assert(longer.subrange(4, 8) =~= b.subrange(4, 8));
    let key_end = SNAPSHOT_KV_HEADER_LEN + bytes::u32_at(b, 0);
    let end = key_end + bytes::u32_at(b, 4);
    assert(longer.subrange(SNAPSHOT_KV_HEADER_LEN as int, key_end) =~= b.subrange(
        SNAPSHOT_KV_HEADER_LEN as int,
        key_end,
    ));
    assert(longer.subrange(key_end, end) =~= b.subrange(key_end, end));
}

/// So are many, and what follows is left.
proof fn many_pairs_do_not_look_on(b: Seq<u8>, more: Seq<u8>, n: nat)
    requires
        decoded_pairs(b, n) is Ok,
    ensures
        decoded_pairs(b + more, n) == Ok::<(Seq<Pair>, Seq<u8>), DbErrorV>(
            (decoded_pairs(b, n)->Ok_0.0, decoded_pairs(b, n)->Ok_0.1 + more),
        ),
    decreases n,
{
    if n > 0 {
        pairs_do_not_look_on(b, more);
        let length = decoded_pair(b)->Ok_0.1;
        assert((b + more).skip(length) =~= b.skip(length) + more);
        many_pairs_do_not_look_on(b.skip(length), more, (n - 1) as nat);
    }
}

/// No snapshot is the beginning of another: a file that holds one holds none
/// with anything added.
pub proof fn lengthened_snapshots_are_refused(b: Seq<u8>, more: Seq<u8>)
    requires
        decoded_snapshot(b) matches Ok(Some(_)),
        more.len() > 0,
    ensures
        decoded_snapshot(b + more) is Err,
{
    reveal(decoded_snapshot);
    reveal(bytes::u32_at);
    let longer = b + more;
    let h = SNAPSHOT_HEADER_LEN as int;
    assert(longer.subrange(16, 20) =~= b.subrange(16, 20));
    assert(longer.skip(h) =~= b.skip(h) + more);
    many_pairs_do_not_look_on(b.skip(h), more, bytes::u32_at(b, 16) as nat);
}

/// A snapshot cut short is refused, unless nothing is left of it.
pub proof fn truncated_snapshots_are_refused(snapshot: SnapshotDataV, n: int)
    requires
        recordable_snapshot(snapshot),
        0 < n < snapshot_bytes(snapshot).len(),
    ensures
        decoded_snapshot(snapshot_bytes(snapshot).take(n)) is Err,
{
    let b = snapshot_bytes(snapshot);
    snapshot_reads_back(snapshot);
    assert(b =~= b.take(n) + b.skip(n));
    if decoded_snapshot(b.take(n)) is Ok {
        assert(decoded_snapshot(b.take(n))->Ok_0 is Some) by {
            reveal(decoded_snapshot);
        }
        lengthened_snapshots_are_refused(b.take(n), b.skip(n));
    }
}

} // verus!
