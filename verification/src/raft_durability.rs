//! What a restart gives back: the files of a node always stand for its log,
//! its committed state, its snapshot and its vote.
use vstd::prelude::*;

use crate::memlog;
use crate::memlog::MemLogV;
use crate::ordered;
use crate::raft_node;
use crate::raft_node::{NodeV, RequestVote, Role};
use crate::raft_node_laws;
use crate::snapshot_codec;
use crate::snapshot_codec::{PersistentRaftMeta, SnapshotDataV};
use crate::state_machine;
use crate::state_machine::KvMap;
use crate::types::{CommandV, DbErrorV, Index, LogEntryV, NodeId, Term};
use crate::wal;
use crate::wal::WalV;
use crate::wal_codec;

verus! {

/// The state that the node's log starts from.
pub open spec fn base_state(node: NodeV) -> KvMap {
    match node.snapshot {
        Some(data) => data.state,
        None => KvMap::empty(),
    }
}

/// The entries that the node holds and has committed.
pub open spec fn committed(node: NodeV) -> Seq<LogEntryV> {
    node.log.entries.take(node.commit_index - node.log.base_index)
}

/// Everything committed stands in the log or in the snapshot, and the state is
/// what it builds.
pub open spec fn applies_committed(node: NodeV) -> bool {
    &&& node.commit_index <= node.log.last_index()
    &&& node.state == state_machine::replayed(base_state(node), committed(node))
}

/// Every entry of a sequence can be recorded and read back.
pub open spec fn all_recordable(entries: Seq<LogEntryV>) -> bool {
    forall|i: int| 0 <= i < entries.len() ==> wal_codec::recordable(#[trigger] entries[i])
}

/// The files hold the log, the snapshot, the commit index, and the vote that
/// the node has cast in its term.
pub open spec fn image_matches(node: NodeV, image: WalV) -> bool {
    &&& all_recordable(node.log.entries)
    &&& image.log == wal_codec::log_bytes(node.log.entries)
    &&& image.load_snapshot() == Ok::<Option<SnapshotDataV>, DbErrorV>(node.snapshot)
    &&& image.load_commit_index() matches Ok(persisted)
    &&& persisted == node.commit_index || (persisted < node.log.base_index && node.commit_index
        == node.log.base_index)
    &&& image.load_raft_meta() matches Ok(meta)
    &&& meta.current_term <= node.current_term
    &&& if meta.current_term == node.current_term {
        meta.voted_for == node.voted_for
    } else {
        node.voted_for is None
    }
}

/// The node keeps files, and they stand for it.
pub open spec fn durable(node: NodeV) -> bool {
    &&& node.wf()
    &&& applies_committed(node)
    &&& node.wal matches Some(image)
    &&& image_matches(node, image)
}

/// Of contiguous entries, those through an index are a prefix.
pub proof fn through_is_prefix(entries: Seq<LogEntryV>, first: int, last: Index)
    requires
        memlog::contiguous(entries, first),
    ensures
        wal::entries_through(entries, last) == entries.take(
            if last < first {
                0
            } else if last - first + 1 >= entries.len() {
                entries.len() as int
            } else {
                last - first + 1
            },
        ),
    decreases entries.len(),
{
    if entries.len() == 0 {
        assert(entries.take(0) =~= Seq::<LogEntryV>::empty());
        assert(entries.take(entries.len() as int) =~= Seq::<LogEntryV>::empty());
    } else {
        let rest = entries.drop_last();
        assert(memlog::contiguous(rest, first)) by {
            assert forall|k: int| 0 <= k < rest.len() implies (#[trigger] rest[k]).index == first
                + k by {
                assert(entries[k].index == first + k);
            }
        }
        through_is_prefix(rest, first, last);
        assert(entries[entries.len() - 1].index == first + entries.len() - 1);
        if entries.last().index <= last {
            assert(rest.take(rest.len() as int) =~= rest);
            assert(rest.push(entries.last()) =~= entries);
            assert(entries.take(entries.len() as int) =~= entries);
        } else if last < first {
            assert(rest.take(0) =~= entries.take(0));
        } else {
            assert(rest.take(last - first + 1) =~= entries.take(last - first + 1));
        }
    }
}

/// Of contiguous entries, those after an index are a suffix.
pub proof fn after_is_suffix(entries: Seq<LogEntryV>, first: int, through: Index)
    requires
        memlog::contiguous(entries, first),
    ensures
        wal::entries_after(entries, through) == entries.skip(
            if through < first {
                0
            } else if through - first + 1 >= entries.len() {
                entries.len() as int
            } else {
                through - first + 1
            },
        ),
    decreases entries.len(),
{
    if entries.len() == 0 {
        assert(entries.skip(0) =~= Seq::<LogEntryV>::empty());
        assert(entries.skip(entries.len() as int) =~= Seq::<LogEntryV>::empty());
    } else {
        let rest = entries.drop_last();
        assert(memlog::contiguous(rest, first)) by {
            assert forall|k: int| 0 <= k < rest.len() implies (#[trigger] rest[k]).index == first
                + k by {
                assert(entries[k].index == first + k);
            }
        }
        after_is_suffix(rest, first, through);
        assert(entries[entries.len() - 1].index == first + entries.len() - 1);
        let cut = if through < first {
            0
        } else if through - first + 1 >= rest.len() {
            rest.len() as int
        } else {
            through - first + 1
        };
        if entries.last().index > through {
            assert(rest.skip(cut).push(entries.last()) =~= entries.skip(cut));
        } else {
            assert(rest.skip(rest.len() as int) =~= entries.skip(entries.len() as int));
        }
    }
}

/// What was recorded of a valid log is loaded.
pub proof fn recorded_log_loads(node: NodeV, image: WalV)
    requires
        node.log.wf(),
        all_recordable(node.log.entries),
        image.log == wal_codec::log_bytes(node.log.entries),
    ensures
        image.load() == Ok::<Seq<LogEntryV>, DbErrorV>(node.log.entries),
{
    wal_codec::log_reads_back(node.log.entries);
    wal_codec::accepted_sequences(node.log.entries);
}

/// Restarting a durable node gives back its log, its committed state, its
/// snapshot and its commit index; and, in the term that it was in, its vote.
pub proof fn restart_gives_back(node: NodeV, id: NodeId, role: Role, term: Term)
    requires
        durable(node),
    ensures
        ({
            let restored = NodeV::restored(id, role, term, node.wal->0);
            &&& restored matches Ok(again)
            &&& again.log == node.log
            &&& again.state == node.state
            &&& again.commit_index == node.commit_index
            &&& again.last_applied == node.last_applied
            &&& again.snapshot == node.snapshot
            &&& again.wal == node.wal
            &&& again.current_term == node.current_term && node.voted_for is Some
                ==> again.voted_for == node.voted_for
            &&& again.current_term >= term
            &&& node.voted_for is Some ==> again.current_term >= node.current_term
        }),
{
    let image = node.wal->0;
    recorded_log_loads(node, image);
    reveal(wal::recovered_node);
    reveal(NodeV::restored);
    let (base, start) = wal::snapshot_base(node.snapshot);
    assert(base.appended(node.log.entries) =~= node.log);
    assert(node.log.last_index() == node.log.base_index + node.log.entries.len());
    if node.log.entries.len() > 0 {
        assert(node.log.entries[0].index == node.log.base_index + 1);
    }
}

/// Becoming a follower keeps a node durable.
pub proof fn following_stays_durable(node: NodeV, term: Term)
    requires
        durable(node),
    ensures
        durable(node.become_follower(term)),
{
    raft_node_laws::becoming_follower_keeps(node, term);
    let after = node.become_follower(term);
    if term > node.current_term {
        snapshot_codec::meta_reads_back(
            PersistentRaftMeta { current_term: term, voted_for: None },
        );
    }
}

/// Standing for election keeps a node durable, its own vote included.
pub proof fn standing_stays_durable(node: NodeV)
    requires
        durable(node),
        node.current_term < u64::MAX,
    ensures
        durable(node.become_candidate()),
{
    snapshot_codec::meta_reads_back(
        PersistentRaftMeta {
            current_term: (node.current_term + 1) as u64,
            voted_for: Some(node.id),
        },
    );
}

/// Voting keeps a node durable: a vote is on disk when it is given.
pub proof fn voting_stays_durable(node: NodeV, request: RequestVote)
    requires
        durable(node),
    ensures
        durable(node.request_vote(request).0),
        node.request_vote(request).1.vote_granted ==> node.request_vote(
            request,
        ).0.wal->0.load_raft_meta() == Ok::<PersistentRaftMeta, DbErrorV>(
            PersistentRaftMeta {
                current_term: request.term,
                voted_for: Some(request.candidate_id),
            },
        ),
{
    reveal(NodeV::request_vote);
    following_stays_durable(node, request.term);
    raft_node_laws::becoming_follower_keeps(node, request.term);
    snapshot_codec::meta_reads_back(
        PersistentRaftMeta {
            current_term: request.term,
            voted_for: Some(request.candidate_id),
        },
    );
}

/// Committing keeps a node durable.
pub proof fn committing_stays_durable(node: NodeV, index: Index)
    requires
        durable(node),
        index <= node.log.last_index(),
    ensures
        durable(node.commit_to(index)),
{
    if index > node.commit_index {
        let after = node.commit_to(index);
        let base = node.log.base_index as int;
        let more = node.log.entries.subrange(node.commit_index - base, index - base);
        assert(committed(after) =~= committed(node) + more);
        state_machine::replay_in_parts(base_state(node), committed(node), more);
        snapshot_codec::commit_index_reads_back(index);
    }
}

/// Recordable entries at the end of a durable log keep the node durable.
pub proof fn extending_stays_durable(node: NodeV, entries: Seq<LogEntryV>)
    requires
        durable(node),
        all_recordable(entries),
        node.log.last_index() + entries.len() <= u64::MAX,
        memlog::contiguous(entries, node.log.last_index() + 1),
    ensures
        node.extend(entries).1 is Ok,
        durable(node.extend(entries).0),
{
    let image = node.wal->0;
    wal_codec::recordable_log(entries);
    wal_codec::log_bytes_in_parts(node.log.entries, entries);
    let after = node.extend(entries).0;
    assert(after.log == node.log.appended(entries));
    let all = node.log.entries + entries;
    assert forall|i: int| 0 <= i < all.len() implies wal_codec::recordable(#[trigger] all[i]) by {
        if i < node.log.entries.len() {
            assert(all[i] == node.log.entries[i]);
        } else {
            assert(all[i] == entries[i - node.log.entries.len()]);
        }
    }
    memlog::appended_entries_are_read_back(node.log, entries, 0);
    assert(committed(after) =~= committed(node));
}

/// A new local entry keeps a node durable.
pub proof fn writing_stays_durable(node: NodeV, command: CommandV, term: Term)
    requires
        durable(node),
        node.log.last_index() < u64::MAX,
        wal_codec::recordable(
            LogEntryV { term, index: (node.log.last_index() + 1) as u64, command },
        ),
    ensures
        node.append_local(command, term).1 is Ok,
        durable(node.append_local(command, term).0),
{
    let entry = LogEntryV { term, index: (node.log.last_index() + 1) as u64, command };
    extending_stays_durable(node, seq![entry]);
}

/// Cutting entries that are not committed keeps a node durable.
pub proof fn cutting_stays_durable(node: NodeV, index: Index)
    requires
        durable(node),
        node.commit_index < index,
    ensures
        node.cut(index).1 is Ok,
        durable(node.cut(index).0),
{
    let image = node.wal->0;
    recorded_log_loads(node, image);
    let entries = node.log.entries;
    let base = node.log.base_index as int;
    through_is_prefix(entries, base + 1, (index - 1) as u64);
    let kept = entries.take(node.log.before(index));
    assert(wal::entries_through(entries, (index - 1) as u64) =~= kept);
    assert forall|i: int| 0 <= i < kept.len() implies wal_codec::recordable(#[trigger] kept[i]) by {
        assert(kept[i] == entries[i]);
    }
    wal_codec::recordable_log(kept);
    let after = node.cut(index).0;
    assert(after.log.wf());
    assert(committed(after) =~= committed(node));
}

/// Nothing that the node has committed is contradicted by the entries.
pub open spec fn respects_committed(node: NodeV, entries: Seq<LogEntryV>) -> bool {
    let (k, conflict) = raft_node::first_new_entry(node.log, entries, 0);
    conflict ==> node.commit_index < entries[k].index
}

/// Merging a leader's entries keeps a node durable, as long as they contradict
/// nothing that it has committed.
pub proof fn merging_stays_durable(node: NodeV, prev: Index, entries: Seq<LogEntryV>)
    requires
        durable(node),
        memlog::contiguous(entries, prev + 1),
        all_recordable(entries),
        respects_committed(node, entries),
        prev <= node.log.last_index(),
        node.log.base_index <= prev || entries.len() == 0,
    ensures
        node.merge(entries).1 is Ok,
        durable(node.merge(entries).0),
{
    let (k, conflict) = raft_node::first_new_entry(node.log, entries, 0);
    if entries.len() > 0 {
        raft_node::first_new_entry_shape(node.log, entries, prev, 0);
        let kept = if conflict {
            node.cut(entries[k].index).0
        } else {
            node
        };
        if conflict {
            cutting_stays_durable(node, entries[k].index);
        }
        if k < entries.len() {
            let fresh = entries.skip(k);
            assert(entries[k].index == prev + 1 + k);
            assert(kept.log.last_index() == prev + k);
            assert(memlog::contiguous(fresh, kept.log.last_index() + 1));
            assert(entries[entries.len() - 1].index == prev + entries.len());
            assert forall|i: int| 0 <= i < fresh.len() implies wal_codec::recordable(
                #[trigger] fresh[i],
            ) by {
                assert(fresh[i] == entries[k + i]);
            }
            extending_stays_durable(kept, fresh);
        }
    }
}

/// Taking a leader's entries keeps a node durable, as long as they contradict
/// nothing that it has committed.
pub proof fn appending_stays_durable(
    node: NodeV,
    leader_term: Term,
    prev: Index,
    prev_term: Term,
    entries: Seq<LogEntryV>,
    leader_commit: Index,
)
    requires
        durable(node),
        memlog::contiguous(entries, prev + 1),
        all_recordable(entries),
        respects_committed(node, entries),
    ensures
        ({
            let (after, result) = node.append_entries(
                leader_term,
                prev,
                prev_term,
                entries,
                leader_commit,
            );
            result is Ok && durable(after)
        }),
{
    reveal(NodeV::append_entries);
    if leader_term >= node.current_term {
        following_stays_durable(node, leader_term);
        raft_node_laws::becoming_follower_keeps(node, leader_term);
        let heeded = node.heed(leader_term);
        if heeded.agrees(prev, prev_term) && !(prev < heeded.log.base_index && entries.len() > 0) {
            merging_stays_durable(heeded, prev, entries);
            let merged = heeded.merge(entries).0;
            let target = raft_node::smaller(leader_commit, merged.log.last_index());
            committing_stays_durable(merged, target);
            let done = merged.commit_to(target);
            assert(durable(NodeV { election_elapsed: 0, ..done }));
        }
    }
}

/// Putting a snapshot in place of the log's prefix succeeds on disk.
proof fn storing_succeeds(node: NodeV, data: SnapshotDataV)
    requires
        durable(node),
        snapshot_codec::recordable_snapshot(data),
        node.log.base_index <= data.last_included_index,
    ensures
        ({
            let (stored, result) = node.store_snapshot(data);
            let image = node.wal->0;
            let next = stored.wal->0;
            let rest = node.log.compacted(
                data.last_included_index,
                data.last_included_term,
            ).entries;
            &&& result is Ok
            &&& stored.wal is Some
            &&& next.log == wal_codec::log_bytes(rest)
            &&& all_recordable(rest)
            &&& next.load_snapshot() == Ok::<Option<SnapshotDataV>, DbErrorV>(Some(data))
            &&& next.commit == image.commit
            &&& next.meta == image.meta
        }),
{
    let image = node.wal->0;
    recordable_pairs(ordered::sorted_pairs(data.state));
    snapshot_codec::snapshot_reads_back(data);
    let next = image.persist_snapshot(data).0;
    recorded_log_loads(node, next);
    let entries = node.log.entries;
    let base = node.log.base_index as int;
    after_is_suffix(entries, base + 1, data.last_included_index);
    let rest = node.log.compacted(data.last_included_index, data.last_included_term).entries;
    assert(node.log.last_index() == base + entries.len());
    assert(wal::entries_after(entries, data.last_included_index) =~= rest);
    assert forall|i: int| 0 <= i < rest.len() implies wal_codec::recordable(#[trigger] rest[i]) by {
        assert(rest[i] == entries[data.last_included_index - base + i]);
    }
    wal_codec::recordable_log(rest);
}

/// Pairs that can each be recorded can be recorded together.
proof fn recordable_pairs(pairs: Seq<snapshot_codec::Pair>)
    requires
        forall|i: int|
            0 <= i < pairs.len() ==> snapshot_codec::recordable_pair(#[trigger] pairs[i]),
    ensures
        snapshot_codec::pairs_error(pairs) is None,
    decreases pairs.len(),
{
    if pairs.len() > 0 {
        let rest = pairs.drop_last();
        assert forall|i: int| 0 <= i < rest.len() implies snapshot_codec::recordable_pair(
            #[trigger] rest[i],
        ) by {
            assert(snapshot_codec::recordable_pair(pairs[i]));
        }
        recordable_pairs(rest);
        assert(snapshot_codec::recordable_pair(pairs[pairs.len() - 1]));
    }
}

/// Making a snapshot of a durable node succeeds, and keeps it durable.
pub proof fn compacting_stays_durable(node: NodeV)
    requires
        durable(node),
        node.log.term_at(node.commit_index) matches Some(term)
            ==> snapshot_codec::recordable_snapshot(
            SnapshotDataV {
                last_included_index: node.commit_index,
                last_included_term: term,
                state: node.state,
            },
        ),
    ensures
        node.create_snapshot().1 is Ok,
        durable(node.create_snapshot().0),
{
    reveal(NodeV::create_snapshot);
    raft_node_laws::compacting_keeps(node);
    if node.commit_index != 0 {
        assert(node.log.last_index() == node.log.base_index + node.log.entries.len());
        assert(node.log.term_at(node.commit_index) is Some);
        let data = SnapshotDataV {
            last_included_index: node.commit_index,
            last_included_term: node.log.term_at(node.commit_index)->0,
            state: node.state,
        };
        storing_succeeds(node, data);
        snapshot_codec::commit_index_reads_back(node.commit_index);
        let after = node.create_snapshot().0;
        assert(committed(after) =~= Seq::<LogEntryV>::empty());
        assert(image_matches(after, after.wal->0));
    }
}

/// A stored snapshot in place of the state and of the log behind it keeps a
/// node durable.
proof fn replacing_stays_durable(node: NodeV, data: SnapshotDataV)
    requires
        durable(node),
        snapshot_codec::recordable_snapshot(data),
        node.commit_index <= data.last_included_index,
        !node.has_snapshot(data),
    ensures
        node.store_snapshot(data).1 is Ok,
        durable(node.store_snapshot(data).0.with_snapshot(data)),
{
    storing_succeeds(node, data);
    raft_node_laws::storing_keeps(node, data);
    let stored = node.store_snapshot(data).0;
    let installed = stored.with_snapshot(data);
    snapshot_codec::commit_index_reads_back(data.last_included_index);
    assert(installed.log.base_index == data.last_included_index);
    assert(installed.commit_index == data.last_included_index);
    assert(committed(installed) =~= Seq::<LogEntryV>::empty());
    assert(image_matches(installed, installed.wal->0));
}

/// Taking a leader's snapshot that reaches beyond what the node has committed
/// succeeds, and keeps it durable.
pub proof fn installing_stays_durable(
    node: NodeV,
    leader_term: Term,
    data: SnapshotDataV,
    leader_commit: Index,
)
    requires
        durable(node),
        snapshot_codec::recordable_snapshot(data),
        node.commit_index <= data.last_included_index,
        node.contradicts(data) ==> node.commit_index < data.last_included_index,
    ensures
        node.install_snapshot(leader_term, data, leader_commit).1 is Ok,
        durable(node.install_snapshot(leader_term, data, leader_commit).0),
{
    reveal(NodeV::install_snapshot);
    raft_node_laws::installing_keeps(node, leader_term, data, leader_commit);
    if leader_term >= node.current_term {
        following_stays_durable(node, leader_term);
        raft_node_laws::becoming_follower_keeps(node, leader_term);
        let heeded = node.heed(leader_term);
        if !heeded.has_snapshot(data) {
            if heeded.contradicts(data) {
                cutting_stays_durable(heeded, data.last_included_index);
            }
            let kept = heeded.yield_to(data).0;
            replacing_stays_durable(kept, data);
            let installed = kept.store_snapshot(data).0.with_snapshot(data);
            committing_stays_durable(
                installed,
                raft_node::smaller(leader_commit, installed.log.last_index()),
            );
        }
    }
}

/// A node that starts with empty files is durable.
pub proof fn blank_start_is_durable(id: NodeId, role: Role, term: Term, path: Seq<char>)
    ensures
        ({
            let started = NodeV::restored(id, role, term, WalV::blank(path));
            &&& started matches Ok(node)
            &&& durable(node)
            &&& node.log == MemLogV::empty()
            &&& node.commit_index == 0
            &&& node.current_term == term
            &&& node.state == KvMap::empty()
            &&& node.snapshot is None
        }),
{
    reveal(wal::recovered_node);
    reveal(NodeV::restored);
    reveal(snapshot_codec::decoded_snapshot);
    reveal(snapshot_codec::decoded_meta);
    let blank = WalV::blank(path);
    assert(blank.load() == Ok::<Seq<LogEntryV>, DbErrorV>(Seq::empty()));
    assert(MemLogV::empty().appended(Seq::empty()) =~= MemLogV::empty());
    let empty = Seq::<LogEntryV>::empty();
    assert(empty.take(0) =~= empty);
    assert(wal_codec::log_bytes(empty) =~= Seq::<u8>::empty());
}

} // verus!
