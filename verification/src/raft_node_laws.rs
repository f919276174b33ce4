//! What every step of a node keeps: its identity, the direction of its term
//! and commit index, and the shape of its log.
use vstd::prelude::*;

use crate::memlog;
use crate::raft_node;
use crate::raft_node::{NodeV, RequestVote, Role};
use crate::snapshot_codec::SnapshotDataV;
use crate::types::{Index, LogEntryV, Term};

verus! {

/// Within a term a vote that was cast stays as it is.
pub open spec fn vote_stands(before: NodeV, after: NodeV) -> bool {
    after.current_term == before.current_term && before.voted_for is Some ==> after.voted_for
        == before.voted_for
}

/// One node after another as one and the same member: term and commit index
/// have not gone back, no clock has gone forward, no vote was changed within a
/// term, and nobody has made itself leader.
pub open spec fn follows(before: NodeV, after: NodeV) -> bool {
    &&& after.id == before.id
    &&& before.current_term <= after.current_term
    &&& before.commit_index <= after.commit_index
    &&& after.heartbeat_elapsed <= before.heartbeat_elapsed
    &&& after.election_elapsed <= before.election_elapsed
    &&& after.role == Role::Leader ==> before.role == Role::Leader
    &&& vote_stands(before, after)
}

/// Becoming a follower keeps everything but role, term, vote and clocks.
pub proof fn becoming_follower_keeps(node: NodeV, term: Term)
    ensures
        follows(node, node.become_follower(term)),
        node.become_follower(term).log == node.log,
        node.become_follower(term).state == node.state,
        node.become_follower(term).commit_index == node.commit_index,
        node.become_follower(term).current_term == if term > node.current_term {
            term
        } else {
            node.current_term
        },
        node.wf() ==> node.become_follower(term).wf(),
{
}

/// Merging a leader's entries keeps the node valid and reaches no further than
/// the log or the entries did.
pub proof fn merging_keeps(node: NodeV, prev: Index, entries: Seq<LogEntryV>)
    requires
        node.wf(),
        memlog::contiguous(entries, prev + 1),
        prev <= node.log.last_index(),
        node.log.base_index <= prev || entries.len() == 0,
    ensures
        node.merge(entries).0.wf(),
        follows(node, node.merge(entries).0),
        node.merge(entries).0.current_term == node.current_term,
        node.merge(entries).0.log.last_index() <= node.log.last_index() || (entries.len() > 0
            && node.merge(entries).0.log.last_index() == entries.last().index),
{
    let (k, conflict) = raft_node::first_new_entry(node.log, entries, 0);
    if entries.len() > 0 {
        raft_node::first_new_entry_shape(node.log, entries, prev, 0);
        let (kept, cut) = if conflict {
            node.cut(entries[k].index)
        } else {
            (node, Ok(()))
        };
        if cut is Ok && k < entries.len() {
            let fresh = entries.skip(k);
            assert(fresh.last() == entries.last());
            assert(entries.last().index == prev + entries.len());
            assert(kept.log.last_index() == prev + k);
            assert(memlog::contiguous(fresh, kept.log.last_index() + 1));
            assert(kept.log.appended(fresh).entries.last() == entries.last());
        }
    }
}

/// Taking a leader's entries keeps the node valid; unless it refuses an earlier
/// term, the node ends in the leader's.
pub proof fn appending_keeps(
    node: NodeV,
    leader_term: Term,
    prev: Index,
    prev_term: Term,
    entries: Seq<LogEntryV>,
    leader_commit: Index,
)
    requires
        node.wf(),
        memlog::contiguous(entries, prev + 1),
    ensures
        ({
            let (after, result) = node.append_entries(
                leader_term,
                prev,
                prev_term,
                entries,
                leader_commit,
            );
            &&& after.wf()
            &&& follows(node, after)
            &&& after.current_term == if leader_term > node.current_term {
                leader_term
            } else {
                node.current_term
            }
            &&& after.log.last_index() <= node.log.last_index() || (entries.len() > 0
                && after.log.last_index() == entries.last().index)
        }),
{
    reveal(NodeV::append_entries);
    if leader_term >= node.current_term {
        becoming_follower_keeps(node, leader_term);
        let heeded = node.heed(leader_term);
        if heeded.agrees(prev, prev_term) && !(prev < heeded.log.base_index && entries.len() > 0) {
            merging_keeps(heeded, prev, entries);
        }
    }
}

/// Storing a snapshot on disk changes the write-ahead log alone.
pub proof fn storing_keeps(node: NodeV, data: SnapshotDataV)
    ensures
        ({
            let stored = node.store_snapshot(data).0;
            stored == NodeV { wal: stored.wal, ..node }
        }),
{
}

/// Making way for a snapshot cuts entries that the node's own snapshot does not
/// reach, and changes nothing but the log.
pub proof fn yielding_keeps(node: NodeV, data: SnapshotDataV)
    requires
        node.wf(),
    ensures
        ({
            let (kept, cut) = node.yield_to(data);
            &&& node.log.base_index <= data.last_included_index ==> kept.wf()
            &&& kept == NodeV { wal: kept.wal, log: kept.log, ..node }
            &&& kept.log.last_index() <= node.log.last_index()
        }),
{
    let kept = node.yield_to(data).0;
    assert(node.log.last_index() == node.log.base_index + node.log.entries.len());
    if node.contradicts(data) {
        assert(kept.log.wf());
        assert(kept.log.last_index() == kept.log.base_index + kept.log.entries.len());
    }
}

/// Taking a leader's snapshot keeps the node valid; unless it refuses an
/// earlier term, the node ends in the leader's.
pub proof fn installing_keeps(
    node: NodeV,
    leader_term: Term,
    data: SnapshotDataV,
    leader_commit: Index,
)
    requires
        node.wf(),
    ensures
        ({
            let (after, result) = node.install_snapshot(leader_term, data, leader_commit);
            &&& after.wf()
            &&& follows(node, after)
            &&& after.current_term == if leader_term > node.current_term {
                leader_term
            } else {
                node.current_term
            }
            &&& after.log.last_index() <= node.log.last_index() || after.log.last_index()
                == data.last_included_index
        }),
{
    reveal(NodeV::install_snapshot);
    if leader_term >= node.current_term {
        becoming_follower_keeps(node, leader_term);
        let heeded = node.heed(leader_term);
        if !heeded.has_snapshot(data) {
            yielding_keeps(heeded, data);
            let (kept, cut) = heeded.yield_to(data);
            if cut is Ok {
                storing_keeps(kept, data);
                let (stored, result) = kept.store_snapshot(data);
                if result is Ok {
                    let installed = stored.with_snapshot(data);
                    assert(installed.wf());
                    assert(installed.log.last_index() <= node.log.last_index()
                        || installed.log.last_index() == data.last_included_index);
                }
            }
        }
    }
}

/// Answering a candidate keeps everything but term, vote, role and clocks.
pub proof fn voting_keeps(node: NodeV, request: RequestVote)
    requires
        request.candidate_id != node.id,
    ensures
        ({
            let (after, response) = node.request_vote(request);
            &&& follows(node, after)
            &&& after.log == node.log
            &&& after.state == node.state
            &&& after.commit_index == node.commit_index
            &&& after.current_term == if request.term > node.current_term {
                request.term
            } else {
                node.current_term
            }
            &&& response.term == after.current_term
            &&& node.wf() ==> after.wf()
        }),
{
    reveal(NodeV::request_vote);
    becoming_follower_keeps(node, request.term);
}

/// Making a snapshot keeps the node valid, its term, its commit index, its
/// state and the end of its log.
pub proof fn compacting_keeps(node: NodeV)
    requires
        node.wf(),
    ensures
        ({
            let (after, result) = node.create_snapshot();
            &&& after.wf()
            &&& follows(node, after)
            &&& after.current_term == node.current_term
            &&& after.commit_index == node.commit_index
            &&& after.state == node.state
            &&& after.role == node.role
            &&& after.log.last_index() == node.log.last_index()
            &&& result matches Ok(Some(data)) ==> data.last_included_index == node.commit_index
                && data.state == node.state
        }),
{
    reveal(NodeV::create_snapshot);
    if node.commit_index != 0 && node.log.term_at(node.commit_index) is Some {
        let data = SnapshotDataV {
            last_included_index: node.commit_index,
            last_included_term: node.log.term_at(node.commit_index)->0,
            state: node.state,
        };
        storing_keeps(node, data);
    }
}

} // verus!
