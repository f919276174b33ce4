//! What clients see of a cluster whose leader a majority follows: writes are
//! committed at once, and what was written is read.
use vstd::prelude::*;

use crate::api_laws;
use crate::api_model;
use crate::api_model::ApiV;
use crate::api_types::{ClientResponseV, ReadConsistency};
use crate::api_versions;
use crate::api_versions::in_step;
use crate::mvcc;
use crate::mvcc::Timestamp;
use crate::ordered;
use crate::raft_guarantees;
use crate::raft_health;
use crate::raft_laws;
use crate::raft_model;
use crate::raft_model::ClusterV;
use crate::raft_progress;
use crate::raft_soundness::tally;
use crate::sql_ast::{ColumnName, ComparisonOp, PredicateV};
use crate::sql_plan;
use crate::state_machine;
use crate::state_machine::KvMap;
use crate::text;
use crate::types::{CommandV, Index, LogEntryV, NodeId, Term};
use crate::wal_codec;

verus! {

/// The node is a member, and connected.
pub open spec fn is_connected(c: ClusterV, id: NodeId) -> bool {
    raft_model::has_member(c.nodes, id) && c.connected[raft_model::position(c.nodes, id)]
}

/// What the leader has committed, with everything in its log that is not
/// committed yet.
pub open spec fn state_with_pending(c: ClusterV) -> KvMap {
    let leader = c.nodes[c.leader_at()];
    state_machine::replayed(
        leader.state,
        leader.log.entries.skip(leader.commit_index - leader.log.base_index),
    )
}

/// A write that a healthy cluster takes: its entry can be recorded, and not too
/// much is pending.
pub open spec fn takes(a: ApiV, command: CommandV) -> bool {
    &&& raft_health::healthy(a.cluster)
    &&& a.cluster.log_room(1)
    &&& raft_health::can_record(a.cluster, seq![a.cluster.next_entry(command)])
    &&& a.pending() < a.config.max_pending_entries
    &&& in_step(a)
}

/// In a healthy cluster a write to the leader that is not refused for pending
/// entries is committed at once, by every connected member, together with
/// everything that was pending; and the versions then end there and show the
/// leader's state.
pub proof fn healthy_writes_are_committed(a: ApiV, command: CommandV, timeout: Option<u64>)
    requires
        takes(a, command),
    ensures
        a.room_to_write(a.cluster.leader_id, command, timeout),
        ({
            let (after, response) = a.write(a.cluster.leader_id, command, timeout);
            let index = (a.cluster.nodes[a.cluster.leader_at()].log.last_index() + 1) as u64;
            let leader = after.cluster.nodes[after.cluster.leader_at()];
            &&& response matches ClientResponseV::WriteCommitted {
                index: committed,
                committed_nodes,
            }
            &&& committed == index
            &&& committed_nodes >= raft_health::connected_members(a.cluster)
            &&& after.cluster == a.cluster.propose(command).0
            &&& after.cluster.connected == a.cluster.connected
            &&& raft_health::healthy(after.cluster)
            &&& after.cluster.leader_id == a.cluster.leader_id
            &&& after.config == a.config
            &&& leader.commit_index == index
            &&& leader.log.last_index() == index
            &&& leader.state == state_machine::applied(state_with_pending(a.cluster), command)
            &&& after.mvcc_last_applied_index == index
            &&& api_versions::shows(after.mvcc, index, leader.state)
            &&& in_step(after)
            &&& after.pending() == 0
        }),
{
    reveal(ApiV::write);
    raft_health::healthy_proposals_commit(a.cluster, command);
    raft_laws::proposing_takes_room(a.cluster, command, 1);
    raft_laws::leader_has_place(a.cluster);
    raft_health::connected_are_members(a.cluster.connected, a.cluster.nodes.len() as int);
    let l = a.cluster.leader_at();
    let leader = a.cluster.nodes[l];
    assert(a.cluster.member_ok(l));
    let d = a.cluster.propose(command).0;
    raft_laws::leader_has_place(d);
    let next = d.nodes[d.leader_at()];
    let at = leader.commit_index - leader.log.base_index;
    let entry = a.cluster.next_entry(command);
    assert(leader.log.last_index() == leader.log.base_index + leader.log.entries.len());
    let tail = next.log.entries.skip(at);
    assert(tail.drop_last() =~= leader.log.entries.skip(at));
    assert(tail.last() == entry);
    api_versions::writes_stay_in_step(a, a.cluster.leader_id, command, timeout);
    api_versions::versions_are_behind_the_log(a);
    let after = a.write(a.cluster.leader_id, command, timeout).0;
    assert(after.mvcc_last_applied_index == next.commit_index);
    api_versions::versions_that_end_with_the_leader(after);
    assert(next.log.last_index() == entry.index);
}

/// A write to a leader that a majority follows, and that is not refused for
/// pending entries, is committed at once by all who follow, whatever their logs
/// held before; and the versions then end there and show the leader's state, in
/// which the key reads as written.
pub proof fn majorities_commit_writes(a: ApiV, command: CommandV, timeout: Option<u64>)
    requires
        in_step(a),
        a.cluster.available(a.cluster.leader_at()),
        a.cluster.log_room(1),
        tally(raft_progress::followers(a.cluster, a.cluster.leader_at())) >= a.cluster.quorum(),
        raft_progress::can_take(a.cluster, command),
        a.pending() < a.config.max_pending_entries,
    ensures
        a.room_to_write(a.cluster.leader_id, command, timeout),
        ({
            let l = a.cluster.leader_at();
            let (after, response) = a.write(a.cluster.leader_id, command, timeout);
            let index = a.cluster.next_entry(command).index;
            let leader = after.cluster.nodes[l];
            &&& response matches ClientResponseV::WriteCommitted {
                index: committed,
                committed_nodes,
            }
            &&& committed == index
            &&& committed_nodes >= tally(raft_progress::followers(a.cluster, l))
            &&& after.cluster.leader_at() == l
            &&& leader.commit_index == index
            &&& after.mvcc_last_applied_index == index
            &&& api_versions::shows(after.mvcc, index, leader.state)
            &&& state_machine::lookup(leader.state, state_machine::key_of(command))
                == api_model::written_value(command)
            &&& in_step(after)
        }),
{
    reveal(ApiV::write);
    api_versions::cluster_is_valid(a);
    let l = a.cluster.leader_at();
    let entry = a.cluster.next_entry(command);
    raft_progress::majorities_commit_proposals(a.cluster, command);
    raft_laws::proposing_takes_room(a.cluster, command, 1);
    api_versions::writes_stay_in_step(a, a.cluster.leader_id, command, timeout);
    api_versions::versions_are_behind_the_log(a);
    let d = a.cluster.propose(command).0;
    let after = a.write(a.cluster.leader_id, command, timeout).0;
    api_versions::cluster_is_valid(after);
    raft_laws::leader_has_place(a.cluster);
    raft_laws::leader_has_place(d);
    assert(after.cluster == d);
    assert(after.mvcc_last_applied_index == d.nodes[l].commit_index);
    api_versions::versions_that_end_with_the_leader(after);
    raft_guarantees::last_commits_are_read(d, l, entry);
}

/// The state after a write reads as written, and every other key as before.
proof fn applied_commands_are_read(state: KvMap, command: CommandV, key: Seq<char>)
    ensures
        state_machine::lookup(state_machine::applied(state, command), key) == if key
            == state_machine::key_of(command) {
            api_model::written_value(command)
        } else {
            state_machine::lookup(state, key)
        },
{
}

/// A node of a healthy cluster that may answer a read: the leader, or for an
/// eventual read any connected member.
pub open spec fn may_answer(c: ClusterV, to: NodeId, consistency: ReadConsistency) -> bool {
    match consistency {
        ReadConsistency::Eventual => is_connected(c, to),
        ReadConsistency::Linearizable => to == c.leader_id,
    }
}

/// In a healthy cluster reads read at the leader's commit index. No time passes,
/// and the versions stay.
pub proof fn healthy_reads_read_what_is_committed(
    a: ApiV,
    to: NodeId,
    consistency: ReadConsistency,
    timeout: Option<u64>,
)
    requires
        raft_health::healthy(a.cluster),
        may_answer(a.cluster, to, consistency),
    ensures
        ({
            let leader = a.cluster.nodes[a.cluster.leader_at()];
            let (after, ts) = a.read_time(to, consistency, timeout);
            &&& ts == Ok::<Timestamp, ClientResponseV>(leader.commit_index)
            &&& raft_health::healthy(after.cluster)
            &&& after.cluster.nodes[after.cluster.leader_at()] == leader
            &&& after.mvcc == a.mvcc
            &&& after.mvcc_first_index == a.mvcc_first_index
            &&& after.mvcc_last_applied_index == a.mvcc_last_applied_index
            &&& after.cluster.clock_ticks == a.cluster.clock_ticks
        }),
{
    let l = a.cluster.leader_at();
    let leader = a.cluster.nodes[l];
    raft_laws::leader_has_place(a.cluster);
    match consistency {
        ReadConsistency::Eventual => {
            let i = raft_model::position(a.cluster.nodes, to);
            assert(0 <= i < a.cluster.nodes.len() && a.cluster.nodes[i].id == to);
            if i != l {
                assert(raft_health::stands(
                    a.cluster,
                    l,
                    i,
                    leader.log,
                    leader.commit_index,
                    leader.state,
                ));
            }
        },
        ReadConsistency::Linearizable => {
            reveal(ApiV::ensure_lease);
            raft_health::healthy_heartbeats_reach_a_quorum(a.cluster);
            raft_laws::valid_is_bounded(a.cluster);
            raft_laws::heartbeats_keep(a.cluster, u64::MAX, (u64::MAX - 1) as u64);
            let fresh = a.drop_stale_lease();
            let (asked, round) = a.cluster.heartbeat_round();
            raft_health::connected_are_members(
                a.cluster.connected,
                a.cluster.nodes.len() as int,
            );
            assert(round->Ok_0.acknowledged_nodes >= round->Ok_0.quorum);
            raft_laws::leader_has_place(asked);
            if fresh.read_lease is None {
                assert(fresh.await_quorum(to, fresh.read_ticks(timeout) as nat) == (
                    fresh.with_cluster(asked).record_lease(round->Ok_0),
                    Ok::<NodeId, ClientResponseV>(to),
                ));
            }
        },
    }
}

/// A write to a healthy cluster leaves connected who was connected.
proof fn members_stay_connected(a: ApiV, command: CommandV, timeout: Option<u64>, id: NodeId)
    requires
        takes(a, command),
    ensures
        is_connected(a.cluster, id) ==> is_connected(
            a.write(a.cluster.leader_id, command, timeout).0.cluster,
            id,
        ),
{
    healthy_writes_are_committed(a, command, timeout);
    raft_laws::proposing_takes_room(a.cluster, command, 1);
    let after = a.write(a.cluster.leader_id, command, timeout).0;
    if is_connected(a.cluster, id) {
        let i = raft_model::position(a.cluster.nodes, id);
        assert(after.cluster.nodes[i].id == a.cluster.nodes[i].id);
        raft_laws::position_is(after.cluster.nodes, id, i);
    }
}

/// Where the versions end with the leader's commits, a read in a healthy cluster
/// finds them as they are.
proof fn synced_versions_are_read(
    a: ApiV,
    to: NodeId,
    consistency: ReadConsistency,
    wait: Option<u64>,
)
    requires
        raft_health::healthy(a.cluster),
        may_answer(a.cluster, to, consistency),
        a.mvcc_first_index <= a.mvcc_last_applied_index,
        a.mvcc_last_applied_index == a.cluster.nodes[a.cluster.leader_at()].commit_index,
    ensures
        ({
            let (after, time) = a.read_time(to, consistency, wait);
            &&& time == Ok::<Timestamp, ClientResponseV>(a.mvcc_last_applied_index)
            &&& after.versions_for(to).mvcc == a.mvcc
        }),
{
    healthy_reads_read_what_is_committed(a, to, consistency, wait);
    raft_laws::leader_has_place(a.cluster);
    let after = a.read_time(to, consistency, wait).0;
    raft_laws::leader_has_place(after.cluster);
    if consistency == ReadConsistency::Linearizable {
        assert(after.cluster.leader_id == to);
    } else {
        assert(after == a);
    }
}

/// What is written is read: in a healthy cluster, after a write that is not
/// refused for pending entries, a linearizable read at the leader and an
/// eventual read at any connected member give the value that was put, and none
/// where the key was deleted; and every other key reads as the leader's state
/// with everything that was pending.
pub proof fn healthy_writes_are_read_back(
    a: ApiV,
    command: CommandV,
    timeout: Option<u64>,
    to: NodeId,
    key: Seq<char>,
    consistency: ReadConsistency,
    wait: Option<u64>,
)
    requires
        takes(a, command),
        may_answer(a.cluster, to, consistency),
    ensures
        ({
            let after = a.write(a.cluster.leader_id, command, timeout).0;
            let value = if key == state_machine::key_of(command) {
                api_model::written_value(command)
            } else {
                state_machine::lookup(state_with_pending(a.cluster), key)
            };
            after.read(to, key, consistency, wait).1 == (ClientResponseV::ReadResult {
                value,
                consistency,
            })
        }),
{
    healthy_writes_are_committed(a, command, timeout);
    members_stay_connected(a, command, timeout, to);
    let after = a.write(a.cluster.leader_id, command, timeout).0;
    synced_versions_are_read(after, to, consistency, wait);
    applied_commands_are_read(state_with_pending(a.cluster), command, key);
    let leader = after.cluster.nodes[after.cluster.leader_at()];
    assert(after.mvcc.read(key, leader.commit_index) == state_machine::lookup(leader.state, key));
}

/// Of rows in ascending key order, a key selects the one row that has it.
pub proof fn a_key_selects_its_row(
    rows: Seq<(Seq<char>, Seq<char>)>,
    key: Seq<char>,
    value: Seq<char>,
)
    requires
        ordered::ascending(rows),
    ensures
        ({
            let by_key = PredicateV {
                column: ColumnName::Key,
                op: ComparisonOp::Eq,
                value: key,
            };
            let found = api_model::selected(rows, Some(by_key));
            &&& rows.contains((key, value)) ==> found == seq![(key, value)]
            &&& (forall|k: int| 0 <= k < rows.len() ==> (#[trigger] rows[k]).0 != key)
                ==> found.len() == 0
        }),
    decreases rows.len(),
{
    if rows.len() > 0 {
        let rest = rows.drop_last();
        let last = rows.last();
        assert(ordered::ascending(rest)) by {
            assert forall|a: int, b: int| 0 <= a < b < rest.len() implies text::text_lt(
                #[trigger] rest[a].0,
                #[trigger] rest[b].0,
            ) by {
                assert(text::text_lt(rows[a].0, rows[b].0));
            }
        }
        a_key_selects_its_row(rest, key, value);
        assert(rows[rows.len() - 1].0 == last.0);
        if last.0 == key {
            assert forall|k: int| 0 <= k < rest.len() implies (#[trigger] rest[k]).0 != key by {
                assert(text::text_lt(rows[k].0, rows[rows.len() - 1].0));
                text::text_lt_irreflexive(key);
            }
            if rows.contains((key, value)) {
                let k = choose|k: int| 0 <= k < rows.len() && rows[k] == (key, value);
                if k < rest.len() {
                    assert(rest[k].0 == key);
                }
                assert(seq![(key, value)] =~= Seq::empty().push((key, value)));
            }
        } else {
            if rows.contains((key, value)) {
                let k = choose|k: int| 0 <= k < rows.len() && rows[k] == (key, value);
                assert(rest[k] == (key, value));
            }
            if forall|k: int| 0 <= k < rows.len() ==> (#[trigger] rows[k]).0 != key {
                assert forall|k: int| 0 <= k < rest.len() implies (#[trigger] rest[k]).0 != key by {
                    assert(rows[k].0 != key);
                }
            }
        }
    }
}

/// What is inserted is selected: in a healthy cluster, after an INSERT that is
/// not refused for pending entries, a SELECT by the key, linearizable at the
/// leader or eventual at any connected member, gives exactly the inserted row.
pub proof fn healthy_inserts_are_selected(
    a: ApiV,
    key: Seq<char>,
    value: Seq<char>,
    timeout: Option<u64>,
    to: NodeId,
    columns: Seq<ColumnName>,
    consistency: ReadConsistency,
    wait: Option<u64>,
)
    requires
        takes(a, CommandV::Put { key, value }),
        may_answer(a.cluster, to, consistency),
    ensures
        ({
            let command = CommandV::Put { key, value };
            let (after, response) = a.insert(a.cluster.leader_id, command, timeout);
            let by_key = PredicateV {
                column: ColumnName::Key,
                op: ComparisonOp::Eq,
                value: key,
            };
            &&& response matches ClientResponseV::SqlWriteResult { affected_rows, .. }
            &&& affected_rows == 1
            &&& after.select(to, columns, Some(by_key), consistency, wait).1 == (
            ClientResponseV::SqlRows {
                columns: sql_plan::headers(columns),
                rows: seq![sql_plan::projected(key, value, columns)],
                consistency,
            })
        }),
{
    let command = CommandV::Put { key, value };
    healthy_writes_are_committed(a, command, timeout);
    members_stay_connected(a, command, timeout, to);
    let after = a.write(a.cluster.leader_id, command, timeout).0;
    let leader = after.cluster.nodes[after.cluster.leader_at()];
    let index = leader.commit_index;
    synced_versions_are_read(after, to, consistency, wait);
    applied_commands_are_read(state_with_pending(a.cluster), command, key);
    assert(after.mvcc.read(key, index) == state_machine::lookup(leader.state, key));
    api_versions::keys_can_be_sorted(after);
    mvcc::rows_of_a_catalog(after.mvcc, index, key, value);
    a_key_selects_its_row(after.mvcc.rows(index), key, value);
    assert(api_model::projections(seq![(key, value)], columns) =~= seq![
        sql_plan::projected(key, value, columns),
    ]);
}

/// Every entry that a command makes can be recorded.
pub open spec fn can_be_recorded(command: CommandV) -> bool {
    forall|term: Term, index: Index|
        wal_codec::log_error(seq![#[trigger] entry_of(term, index, command)]) is None
}

/// The entry of a command.
pub open spec fn entry_of(term: Term, index: Index, command: CommandV) -> LogEntryV {
    LogEntryV { term, index, command }
}

/// The state after rows were written.
pub open spec fn with_rows(
    state: KvMap,
    rows: Seq<(Seq<char>, Seq<char>)>,
    i: int,
    value: Option<Seq<char>>,
) -> KvMap
    decreases rows.len() - i,
{
    if 0 <= i < rows.len() {
        with_rows(
            state_machine::applied(state, api_model::row_command(rows[i].0, value)),
            rows,
            i + 1,
            value,
        )
    } else {
        state
    }
}

/// In such a state every key of a row reads as the new value, and every other as
/// before.
pub proof fn rows_read_as_written(
    state: KvMap,
    rows: Seq<(Seq<char>, Seq<char>)>,
    i: int,
    value: Option<Seq<char>>,
    key: Seq<char>,
)
    requires
        0 <= i <= rows.len(),
    ensures
        state_machine::lookup(with_rows(state, rows, i, value), key) == if exists|k: int|
            i <= k < rows.len() && (#[trigger] rows[k]).0 == key {
            value
        } else {
            state_machine::lookup(state, key)
        },
    decreases rows.len() - i,
{
    if i < rows.len() {
        let command = api_model::row_command(rows[i].0, value);
        let next = state_machine::applied(state, command);
        rows_read_as_written(next, rows, i + 1, value, key);
        applied_commands_are_read(state, command, key);
        let here = exists|k: int| i <= k < rows.len() && (#[trigger] rows[k]).0 == key;
        let later = exists|k: int| i + 1 <= k < rows.len() && (#[trigger] rows[k]).0 == key;
        if here && !later {
            let k = choose|k: int| i <= k < rows.len() && (#[trigger] rows[k]).0 == key;
            assert(k == i);
        }
    }
}

/// With nothing pending, the state with what is pending is the state.
proof fn nothing_pending(c: ClusterV)
    requires
        c.wf(),
        c.nodes[c.leader_at()].commit_index == c.nodes[c.leader_at()].log.last_index(),
    ensures
        state_with_pending(c) == c.nodes[c.leader_at()].state,
{
    raft_laws::leader_has_place(c);
    let leader = c.nodes[c.leader_at()];
    assert(c.member_ok(c.leader_at()));
    assert(leader.log.last_index() == leader.log.base_index + leader.log.entries.len());
    assert(leader.log.entries.skip(leader.commit_index - leader.log.base_index)
        =~= Seq::empty());
}

/// In a healthy cluster all rows of an UPDATE or DELETE are written.
proof fn healthy_rows_are_written(
    a: ApiV,
    rows: Seq<(Seq<char>, Seq<char>)>,
    i: nat,
    value: Option<Seq<char>>,
    timeout: Option<u64>,
    last_index: Option<Index>,
    committed: usize,
)
    requires
        in_step(a),
        raft_health::healthy(a.cluster),
        i < rows.len() ==> a.cluster.log_room(rows.len() - i),
        a.pending() < a.config.max_pending_entries,
        i <= rows.len() <= usize::MAX,
        forall|k: int|
            i <= k < rows.len() ==> can_be_recorded(
                api_model::row_command((#[trigger] rows[k]).0, value),
            ),
    ensures
        a.room_to_write_rows(a.cluster.leader_id, rows, i, value, timeout),
        ({
            let (after, response) = a.write_rows(
                a.cluster.leader_id,
                rows,
                i,
                value,
                timeout,
                last_index,
                committed,
            );
            &&& response matches ClientResponseV::SqlWriteResult { affected_rows, .. }
            &&& affected_rows == rows.len()
            &&& in_step(after)
            &&& raft_health::healthy(after.cluster)
            &&& i < rows.len() ==> after.cluster.nodes[after.cluster.leader_at()].state
                == with_rows(state_with_pending(a.cluster), rows, i as int, value)
            &&& i == rows.len() ==> after == a
        }),
    decreases rows.len() - i,
{
    if i < rows.len() {
        let command = api_model::row_command(rows[i as int].0, value);
        let entry = a.cluster.next_entry(command);
        assert(entry == entry_of(entry.term, entry.index, command));
        assert(a.cluster.log_room(1)) by {
            assert forall|k: int| 0 <= k < a.cluster.nodes.len() implies (
            #[trigger] a.cluster.nodes[k]).log.last_index() + 1 < u64::MAX by {
                assert(a.cluster.nodes[k].log.last_index() + (rows.len() - i) < u64::MAX);
            }
        }
        healthy_writes_are_committed(a, command, timeout);
        raft_laws::proposing_takes_room(a.cluster, command, rows.len() - i);
        let (b, response) = a.write(a.cluster.leader_id, command, timeout);
        let index = response->WriteCommitted_index;
        let nodes = response->WriteCommitted_committed_nodes;
        nothing_pending(b.cluster);
        healthy_rows_are_written(b, rows, i + 1, value, timeout, Some(index), nodes);
        let built = state_machine::applied(state_with_pending(a.cluster), command);
        assert(with_rows(state_with_pending(a.cluster), rows, i as int, value) == with_rows(
            built,
            rows,
            i as int + 1,
            value,
        ));
        if i + 1 == rows.len() {
            assert(with_rows(built, rows, i as int + 1, value) == built);
        }
    }
}

/// An UPDATE or DELETE in a healthy cluster writes exactly the committed rows
/// that meet its predicate, and reports how many they are: each of their keys
/// then reads as the new value, or as absent, and every other key as in the
/// leader's state with everything that was pending.
pub proof fn healthy_mutations_write_the_matching_rows(
    a: ApiV,
    predicate: PredicateV,
    value: Option<Seq<char>>,
    timeout: Option<u64>,
    key: Seq<char>,
    row: (Seq<char>, Seq<char>),
)
    requires
        in_step(a),
        raft_health::healthy(a.cluster),
        a.affected(predicate).len() <= usize::MAX,
        a.affected(predicate).len() > 0 ==> a.cluster.log_room(a.affected(predicate).len() as int),
        a.pending() < a.config.max_pending_entries,
        forall|k: int|
            0 <= k < a.affected(predicate).len() ==> can_be_recorded(
                api_model::row_command((#[trigger] a.affected(predicate)[k]).0, value),
            ),
    ensures
        a.room_to_mutate(a.cluster.leader_id, predicate, value, timeout),
        ({
            let leader = a.cluster.nodes[a.cluster.leader_at()];
            let rows = a.affected(predicate);
            let (after, response) = a.mutate(a.cluster.leader_id, predicate, value, timeout);
            let next = after.cluster.nodes[after.cluster.leader_at()];
            &&& rows.contains(row) <==> state_machine::lookup(leader.state, row.0) == Some(row.1)
                && sql_plan::meets(row.0, row.1, predicate)
            &&& response matches ClientResponseV::SqlWriteResult { affected_rows, .. }
            &&& affected_rows == rows.len()
            &&& in_step(after)
            &&& rows.len() == 0 ==> after.cluster == a.cluster
            &&& rows.len() > 0 ==> state_machine::lookup(next.state, key) == if exists|k: int|
                0 <= k < rows.len() && (#[trigger] rows[k]).0 == key {
                value
            } else {
                state_machine::lookup(state_with_pending(a.cluster), key)
            }
        }),
{
    let leader = a.cluster.nodes[a.cluster.leader_at()];
    let commit = leader.commit_index;
    let rows = a.affected(predicate);
    raft_laws::leader_has_place(a.cluster);
    api_versions::prepared_versions_show(a, a.cluster.leader_id);
    let b = a.in_step_with_the_leader();
    let all = b.mvcc.rows(commit);
    mvcc::rows_of_a_catalog(b.mvcc, commit, row.0, row.1);
    assert(b.mvcc.read(row.0, commit) == state_machine::lookup(leader.state, row.0));
    assert((row.0, row.1) == row);
    api_laws::selected_rows_meet_the_predicate(all, Some(predicate), row);
    healthy_rows_are_written(b, rows, 0, value, timeout, None, 0);
    rows_read_as_written(state_with_pending(a.cluster), rows, 0, value, key);
}

} // verus!
