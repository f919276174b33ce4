//! What one member does, in terms of its log, its clock, its term and its vote.
use vstd::prelude::*;

use crate::memlog;
use crate::memlog::MemLogV;
use crate::raft_node;
use crate::raft_node::{NodeV, Role};
use crate::raft_node_laws;
use crate::snapshot_codec::SnapshotDataV;
use crate::state_machine;
use crate::state_machine::KvMap;
use crate::types::{CommandV, DbErrorV, Index, LogEntryV, NodeId, Term};

verus! {

/// The numbers that elections go by: six ticks, twice as many after every lost
/// round up to four, and up to four ticks more by node and term.
pub proof fn election_timeouts_in_ticks(id: NodeId, term: Term, rounds: u32)
    ensures
        ({
            let timeout = raft_node::election_timeout(id, term, rounds);
            let jitter = (((id * 37) % 0x1_0000_0000_0000_0000 + (term * 17)
                % 0x1_0000_0000_0000_0000) % 0x1_0000_0000_0000_0000) % 5;
            &&& rounds == 0 ==> timeout == 6 + jitter
            &&& rounds == 1 ==> timeout == 12 + jitter
            &&& rounds == 2 ==> timeout == 24 + jitter
            &&& rounds == 3 ==> timeout == 48 + jitter
            &&& rounds >= 4 ==> timeout == 96 + jitter
        }),
        raft_node::DEFAULT_HEARTBEAT_INTERVAL_TICKS == 2,
        raft_node::MIN_ELECTION_TIMEOUT_TICKS == 6,
{
}

/// The election clock of a member that does not lead goes up by one a tick, and
/// rings when it has reached the member's timeout; a leader has none.
pub proof fn election_clocks_ring_in_time(node: NodeV)
    requires
        node.election_elapsed < u64::MAX,
    ensures
        ({
            let (after, rings) = node.election_tick();
            &&& node.role == Role::Leader ==> after == node && !rings
            &&& node.role != Role::Leader ==> after == (NodeV {
                election_elapsed: (node.election_elapsed + 1) as u64,
                ..node
            }) && (rings <==> node.election_elapsed + 1 >= node.election_timeout_ticks)
        }),
{
}

/// The heartbeat clock of a leader rings once every interval; nobody else has
/// one.
pub proof fn heartbeat_clocks_ring_in_time(node: NodeV, interval: u64)
    requires
        node.heartbeat_elapsed < u64::MAX,
    ensures
        ({
            let (after, rings) = node.heartbeat_tick(interval);
            &&& node.role != Role::Leader ==> after == node && !rings
            &&& node.role == Role::Leader ==> (rings <==> node.heartbeat_elapsed + 1 >= interval)
            &&& node.role == Role::Leader ==> after == (NodeV {
                heartbeat_elapsed: if rings {
                    0
                } else {
                    (node.heartbeat_elapsed + 1) as u64
                },
                ..node
            })
        }),
{
}

/// A member changes its role: a follower of a later term has that term and no
/// vote, and of its own term keeps both; a candidate is in the next term and
/// votes for itself; a leader keeps its term and vote. All of them start their
/// clocks anew, and a candidate alone goes on waiting longer.
pub proof fn roles_are_taken(node: NodeV, term: Term)
    requires
        node.current_term < u64::MAX,
    ensures
        ({
            let f = node.become_follower(term);
            let c = node.become_candidate();
            let l = node.become_leader();
            let back = node.increase_backoff();
            &&& f.role == Role::Follower && c.role == Role::Candidate && l.role == Role::Leader
            &&& term > node.current_term ==> f.current_term == term && f.voted_for is None
            &&& term <= node.current_term ==> f.current_term == node.current_term && f.voted_for
                == node.voted_for
            &&& c.current_term == node.current_term + 1 && c.voted_for == Some(node.id)
            &&& l.current_term == node.current_term && l.voted_for == node.voted_for
            &&& f.election_elapsed == 0 && c.election_elapsed == 0 && l.election_elapsed == 0
            &&& f.heartbeat_elapsed == 0 && c.heartbeat_elapsed == 0 && l.heartbeat_elapsed == 0
            &&& f.election_backoff_rounds == 0 && l.election_backoff_rounds == 0
            &&& c.election_backoff_rounds == node.election_backoff_rounds
            &&& back.election_backoff_rounds == if node.election_backoff_rounds >= 4 {
                4
            } else {
                node.election_backoff_rounds + 1
            }
            &&& f.election_timeout_ticks == raft_node::election_timeout(node.id, f.current_term, 0)
            &&& c.election_timeout_ticks == raft_node::election_timeout(
                node.id,
                c.current_term,
                node.election_backoff_rounds,
            )
            &&& back.election_timeout_ticks == raft_node::election_timeout(
                node.id,
                node.current_term,
                back.election_backoff_rounds,
            )
            &&& f.log == node.log && c.log == node.log && l.log == node.log && back.log == node.log
            &&& f.state == node.state && c.state == node.state && l.state == node.state
            &&& f.commit_index == node.commit_index && c.commit_index == node.commit_index
                && l.commit_index == node.commit_index
            &&& node.wal is Some ==> c.wal == Some(
                node.wal->0.persist_raft_meta(c.current_term, c.voted_for),
            )
            &&& node.wal is Some && term > node.current_term ==> f.wal == Some(
                node.wal->0.persist_raft_meta(f.current_term, f.voted_for),
            )
        }),
{
}

/// Committing through an index applies exactly the entries after what was
/// committed, through that index and in order; through an index that is
/// committed it changes nothing.
pub proof fn commits_apply_what_follows(node: NodeV, index: Index)
    requires
        node.wf(),
        node.commit_index <= node.log.last_index(),
        index <= node.log.last_index(),
    ensures
        ({
            let after = node.commit_to(index);
            &&& index <= node.commit_index ==> after == node
            &&& index > node.commit_index ==> {
                &&& after.commit_index == index && after.last_applied == index
                &&& after.log == node.log && after.current_term == node.current_term
                    && after.voted_for == node.voted_for && after.role == node.role
            }
            &&& index == node.commit_index + 1 ==> after.state == state_machine::applied(
                node.state,
                node.log.get(index)->0.command,
            )
            &&& node.commit_index < index ==> after.state == node.commit_to(
                (index - 1) as u64,
            ).commit_to(index).state
        }),
{
    assert(node.log.last_index() == node.log.base_index + node.log.entries.len());
    if index > node.commit_index {
        let base = node.log.base_index as int;
        let before = (index - 1) as u64;
        let all = node.log.entries.subrange(node.last_applied - base, index - base);
        let rest = node.log.entries.subrange(node.last_applied - base, before - base);
        let one = node.log.entries.subrange(before - base, index - base);
        assert(all.drop_last() =~= rest);
        assert(one =~= seq![all.last()]);
        assert(one.drop_last() =~= Seq::empty());
        if rest.len() == 0 {
            assert(rest =~= Seq::empty());
        }
        let mid = node.commit_to(before);
        let last = all.last().command;
        assert(mid.state == state_machine::replayed(node.state, rest));
        assert(mid.last_applied == before);
        assert(mid.log == node.log);
        assert(state_machine::replayed(node.state, all) == state_machine::applied(
            mid.state,
            last,
        ));
        assert(state_machine::replayed(mid.state, Seq::empty()) == mid.state);
        assert(state_machine::replayed(mid.state, one) == state_machine::applied(mid.state, last));
        assert(mid.commit_to(index).state == state_machine::replayed(mid.state, one));
    }
}

/// The log holds an entry of that term at the index, or ends its compacted part
/// with it.
pub open spec fn held(log: MemLogV, index: Index, term: Term) -> bool {
    ||| index > 0 && index == log.base_index && log.base_term == term
    ||| exists|k: int|
        0 <= k < log.entries.len() && (#[trigger] log.entries[k]).index == index
            && log.entries[k].term == term
}

proof fn holding_is_having_the_term(log: MemLogV, index: Index, term: Term)
    requires
        log.wf(),
        index > 0,
    ensures
        held(log, index, term) <==> log.term_at(index) == Some(term),
{
    if log.term_at(index) == Some(term) && index != log.base_index {
        assert(log.entries[index - log.base_index - 1].index == index);
    }
}

/// A leader's message is heard by all but who is in a later term, and its
/// entries are taken exactly where the entry that they follow is held, and not
/// into what was compacted. A later term, or being a candidate, makes the member
/// a follower. What is refused changes neither log nor state; what is taken is
/// committed as far as the leader has committed it.
pub proof fn appends_are_taken_behind_what_is_held(
    node: NodeV,
    leader_term: Term,
    prev: Index,
    prev_term: Term,
    entries: Seq<LogEntryV>,
    leader_commit: Index,
)
    requires
        node.wf(),
        memlog::contiguous(entries, prev + 1),
    ensures
        ({
            let (after, result) = node.append_entries(
                leader_term,
                prev,
                prev_term,
                entries,
                leader_commit,
            );
            let taken = {
                &&& leader_term >= node.current_term
                &&& prev == 0 || held(node.log, prev, prev_term)
                &&& prev >= node.log.base_index || entries.len() == 0
            };
            &&& result matches Ok(answer) ==> answer == taken
            &&& node.wal is None ==> result is Ok
            &&& !taken ==> result is Ok && after.log == node.log && after.state == node.state
                && after.commit_index == node.commit_index
            &&& leader_term < node.current_term ==> after == node
            &&& leader_term > node.current_term ==> after.current_term == leader_term
                && after.voted_for is None && after.role == Role::Follower
            &&& leader_term == node.current_term ==> after.current_term == node.current_term
                && after.voted_for == node.voted_for && after.role == if node.role
                == Role::Candidate {
                Role::Follower
            } else {
                node.role
            }
            &&& taken && result is Ok ==> {
                let told = if leader_commit <= after.log.last_index() {
                    leader_commit
                } else {
                    after.log.last_index()
                };
                &&& after.election_elapsed == 0
                &&& after.commit_index == if told > node.commit_index {
                    told
                } else {
                    node.commit_index
                }
            }
        }),
{
    reveal(NodeV::append_entries);
    raft_node_laws::becoming_follower_keeps(node, leader_term);
    if prev > 0 {
        holding_is_having_the_term(node.log, prev, prev_term);
        memlog::indexes_find_their_entry(node.log, prev);
    }
    memlog::logs_end_with_their_last_entry(node.log);
}

/// The first incoming entry that contradicts the log, if any does.
proof fn contradictions_are_found(log: MemLogV, entries: Seq<LogEntryV>, prev: Index, k: int)
    requires
        log.wf(),
        log.base_index <= prev,
        0 <= k <= entries.len(),
        prev + k <= log.last_index(),
        memlog::contiguous(entries, prev + 1),
    ensures
        raft_node::first_new_entry(log, entries, k).1 <==> exists|j: int|
            k <= j < entries.len() && log.get((#[trigger] entries[j]).index) is Some && log.get(
                entries[j].index,
            )->0.term != entries[j].term,
    decreases entries.len() - k,
{
    raft_node::first_new_entry_shape(log, entries, prev, k);
    assert(log.last_index() == log.base_index + log.entries.len());
    let (j, conflict) = raft_node::first_new_entry(log, entries, k);
    if k < entries.len() {
        assert(entries[k].index == prev + 1 + k);
        if log.get(entries[k].index) is Some && log.get(entries[k].index)->0.term
            == entries[k].term {
            contradictions_are_found(log, entries, prev, k + 1);
        } else if log.get(entries[k].index) is None {
            assert forall|m: int| k <= m < entries.len() implies log.get(
                (#[trigger] entries[m]).index,
            ) is None by {
                assert(entries[m].index == prev + 1 + m);
            }
        } else {
            assert(log.get(entries[k].index)->0.term != entries[k].term);
        }
    }
}

/// The log after a leader's entries were taken: nothing changes through the
/// entry that they follow; each of them is held at its index, or one of the same
/// term that was there before; and behind them everything stays where none of
/// them contradicts the log, and nothing does where one does.
pub proof fn taken_entries_change_no_others(
    node: NodeV,
    leader_term: Term,
    prev: Index,
    prev_term: Term,
    entries: Seq<LogEntryV>,
    leader_commit: Index,
    index: Index,
)
    requires
        node.wf(),
        memlog::contiguous(entries, prev + 1),
        node.append_entries(leader_term, prev, prev_term, entries, leader_commit).1 == Ok::<
            bool,
            DbErrorV,
        >(true),
    ensures
        ({
            let after = node.append_entries(
                leader_term,
                prev,
                prev_term,
                entries,
                leader_commit,
            ).0;
            let contradicted = exists|j: int|
                0 <= j < entries.len() && node.log.get((#[trigger] entries[j]).index) is Some
                    && node.log.get(entries[j].index)->0.term != entries[j].term;
            &&& after.log.base_index == node.log.base_index
            &&& index <= prev ==> after.log.get(index) == node.log.get(index)
            &&& prev < index <= prev + entries.len() ==> after.log.get(index) == Some(
                entries[index - prev - 1],
            ) || (after.log.get(index) == node.log.get(index) && after.log.get(index) is Some
                && after.log.get(index)->0.term == entries[index - prev - 1].term)
            &&& prev < index <= prev + entries.len() && node.log.get(index) is None
                ==> after.log.get(index) == Some(entries[index - prev - 1])
            &&& index > prev + entries.len() && !contradicted ==> after.log.get(index)
                == node.log.get(index)
            &&& index > prev + entries.len() && contradicted ==> after.log.get(index) is None
        }),
{
    reveal(NodeV::append_entries);
    raft_node_laws::becoming_follower_keeps(node, leader_term);
    let heeded = node.heed(leader_term);
    let log = heeded.log;
    assert(log == node.log);
    assert(log.last_index() == log.base_index + log.entries.len());
    if entries.len() > 0 {
        raft_node::first_new_entry_shape(log, entries, prev, 0);
        contradictions_are_found(log, entries, prev, 0);
        let (j, conflict) = raft_node::first_new_entry(log, entries, 0);
        let kept = if conflict {
            heeded.cut(entries[j].index).0
        } else {
            heeded
        };
        if conflict {
            assert(entries[j].index == prev + 1 + j);
            assert(kept.log == log.truncated_from(entries[j].index));
            memlog::truncation_keeps_the_prefix(log, entries[j].index, index);
        }
        let merged = heeded.merge(entries).0;
        if prev < index <= prev + entries.len() {
            assert(entries[index - prev - 1].index == index);
        }
        if j < entries.len() {
            let fresh = entries.skip(j);
            assert(kept.log.last_index() == prev + j);
            assert(memlog::contiguous(fresh, kept.log.last_index() + 1));
            assert(entries[entries.len() - 1].index == prev + entries.len());
            assert(merged.log == kept.log.appended(fresh));
            memlog::appended_entries_are_read_back(kept.log, fresh, index);
            if prev + j < index <= prev + entries.len() {
                assert(fresh[index - prev - j - 1] == entries[index - prev - 1]);
            }
            memlog::indexes_find_their_entry(merged.log, index);
            memlog::indexes_find_their_entry(log, index);
        }
    }
}

/// A command that a member writes becomes the next entry of its log, in the
/// given term; one that cannot be recorded changes nothing but its file.
pub proof fn commands_are_written_last(node: NodeV, command: CommandV, term: Term)
    requires
        node.wf(),
        node.log.last_index() < u64::MAX,
    ensures
        ({
            let (after, result) = node.append_local(command, term);
            let entry = LogEntryV { term, index: (node.log.last_index() + 1) as u64, command };
            &&& node.wal is None ==> result is Ok
            &&& result matches Ok(written) ==> written == entry && after.log.entries
                == node.log.entries.push(entry) && after.log.base_index == node.log.base_index
            &&& result is Err ==> after.log == node.log
            &&& after.state == node.state && after.commit_index == node.commit_index
                && after.current_term == node.current_term && after.voted_for == node.voted_for
                && after.role == node.role
        }),
{
    let entry = LogEntryV { term, index: (node.log.last_index() + 1) as u64, command };
    assert(node.log.entries + seq![entry] =~= node.log.entries.push(entry));
}

/// A member has something to make a snapshot of once it has committed something,
/// and then the snapshot ends there, with the term of the last entry that it
/// covers. Making it changes neither the state nor what is behind it in the log.
pub proof fn snapshots_end_with_what_is_committed(node: NodeV, index: Index)
    requires
        node.wf(),
        node.commit_index <= node.log.last_index(),
    ensures
        ({
            let (after, result) = node.create_snapshot();
            &&& node.commit_index == 0 ==> after == node && result == Ok::<
                Option<SnapshotDataV>,
                DbErrorV,
            >(None)
            &&& node.commit_index > 0 && node.wal is None ==> result is Ok
            &&& node.commit_index > 0 && result is Ok ==> {
                &&& result matches Ok(Some(data))
                &&& data.last_included_index == node.commit_index
                &&& node.log.term_at(node.commit_index) == Some(data.last_included_term)
                &&& data.state == node.state
                &&& after.snapshot == Some(data)
                &&& after.log.base_index == node.commit_index
                &&& after.log.base_term == data.last_included_term
            }
            &&& after.role == node.role && after.current_term == node.current_term
                && after.voted_for == node.voted_for
            &&& after.state == node.state && after.commit_index == node.commit_index
                && after.last_applied == node.last_applied
            &&& after.log.last_index() == node.log.last_index()
            &&& index > node.commit_index ==> after.log.get(index) == node.log.get(index)
        }),
{
    reveal(NodeV::create_snapshot);
    memlog::logs_end_with_their_last_entry(node.log);
    memlog::indexes_find_their_entry(node.log, node.commit_index);
    if let Some(term) = node.log.term_at(node.commit_index) {
        memlog::compaction_moves_the_base(node.log, node.commit_index, term);
        memlog::compaction_keeps_the_suffix(node.log, node.commit_index, term, index);
    }
}

/// A leader's snapshot is refused from an earlier term, is not needed where the
/// member's own reaches as far, and otherwise takes the place of its state and
/// of its log through where it ends. The entries behind it stay exactly where
/// the log does not hold another entry there.
pub proof fn snapshots_are_taken_where_they_reach_further(
    node: NodeV,
    leader_term: Term,
    data: SnapshotDataV,
    leader_commit: Index,
    index: Index,
)
    requires
        node.wf(),
        data.last_included_index > 0,
    ensures
        ({
            let (after, result) = node.install_snapshot(leader_term, data, leader_commit);
            let reached = node.snapshot is Some && node.snapshot->0.last_included_index
                >= data.last_included_index;
            let other = node.log.term_at(data.last_included_index) is Some && node.log.term_at(
                data.last_included_index,
            ) != Some(data.last_included_term);
            &&& node.wal is None ==> result is Ok
            &&& result matches Ok(answer) ==> answer == (leader_term >= node.current_term)
            &&& leader_term < node.current_term ==> after == node
            &&& leader_term > node.current_term ==> after.current_term == leader_term
                && after.voted_for is None && after.role == Role::Follower
            &&& reached ==> after.log == node.log && after.state == node.state
                && after.commit_index == node.commit_index && after.snapshot == node.snapshot
            &&& leader_term >= node.current_term && !reached && result is Ok ==> {
                &&& after.snapshot == Some(data)
                &&& after.log.base_index == data.last_included_index
                &&& after.log.base_term == data.last_included_term
                &&& after.commit_index >= data.last_included_index
                &&& after.commit_index >= node.commit_index
                &&& after.election_elapsed == 0
                &&& node.commit_index <= data.last_included_index ==> {
                    let told = if leader_commit <= after.log.last_index() {
                        leader_commit
                    } else {
                        after.log.last_index()
                    };
                    &&& after.commit_index == if told > data.last_included_index {
                        told
                    } else {
                        data.last_included_index
                    }
                    &&& after.state == state_machine::replayed(
                        data.state,
                        after.log.entries.take(after.commit_index - data.last_included_index),
                    )
                }
                &&& index > data.last_included_index && !other ==> after.log.get(index)
                    == node.log.get(index)
                &&& index > data.last_included_index && other ==> after.log.get(index) is None
            }
        }),
{
    reveal(NodeV::install_snapshot);
    raft_node_laws::becoming_follower_keeps(node, leader_term);
    let heeded = node.heed(leader_term);
    let through = data.last_included_index;
    assert(heeded.log == node.log);
    memlog::truncation_keeps_the_prefix(node.log, through, index);
    let kept = heeded.yield_to(data).0;
    raft_node_laws::yielding_keeps(heeded, data);
    if node.log.base_index <= through {
        memlog::compaction_keeps_the_suffix(kept.log, through, data.last_included_term, index);
        memlog::compaction_moves_the_base(kept.log, through, data.last_included_term);
    }
}

} // verus!
