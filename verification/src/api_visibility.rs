//! What clients see of acknowledged writes: every linearizable read to come,
//! whatever happens in between.
use vstd::prelude::*;

use crate::api_model;
use crate::api_model::ApiV;
use crate::api_types::{
    ClientRequestV, ClientResponseV, ReadConsistency, RequestEnvelopeV, TransportConfig,
};
use crate::api_versions;
use crate::api_versions::in_step;
use crate::raft_laws;
use crate::raft_model;
use crate::raft_model::ClusterV;
use crate::raft_persistence::kept;
use crate::raft_runs;
use crate::raft_runs::CallV;
use crate::raft_soundness;
use crate::raft_soundness::History;
use crate::raft_steps;
use crate::raft_visibility;
use crate::raft_visibility::settled;
use crate::sql_ast::{KvExecutionPlanV, PredicateV};
use crate::state_machine;
use crate::state_machine::KvMap;
use crate::types::{CommandV, Index, LogEntryV, NodeId};

verus! {

/// Where nothing is anchored at an index, nobody has committed it.
proof fn unanchored_is_uncommitted(
    c: ClusterV,
    g: History,
    index: Index,
    numbers: Seq<Index>,
)
    requires
        g.explains(c, c.leader_at()),
        g.anchor < index,
        numbers.len() <= c.nodes.len(),
        numbers == raft_model::commits(c.nodes).take(numbers.len() as int),
    ensures
        raft_model::count_reaching(numbers, index) == 0,
    decreases numbers.len(),
{
    if numbers.len() > 0 {
        let i = numbers.len() - 1;
        let rest = numbers.drop_last();
        assert(rest =~= raft_model::commits(c.nodes).take(rest.len() as int));
        unanchored_is_uncommitted(c, g, index, rest);
        raft_soundness::explained_member(c, g, c.leader_at(), i);
        assert(numbers[i] == raft_model::commits(c.nodes)[i]);
    }
}

/// Waiting for a commit: what is settled stays settled, and what nobody can
/// commit is not acknowledged.
#[verifier::rlimit(40)]
proof fn awaiting_settles(
    a: ApiV,
    g: History,
    index: Index,
    ticks: nat,
    observed: usize,
    entry: LogEntryV,
)
    requires
        a.cluster.wf(),
        a.cluster.room(ticks as int),
        settled(a.cluster, entry) || (g.explains(a.cluster, a.cluster.leader_at()) && g.anchor
            < index),
    ensures
        a.await_commit(index, ticks, observed).1 is WriteCommitted || settled(a.cluster, entry)
            ==> settled(a.await_commit(index, ticks, observed).0.cluster, entry),
        a.await_commit(index, ticks, observed).1 matches ClientResponseV::WriteCommitted {
            index: committed,
            ..
        } ==> committed == index,
    decreases ticks,
{
    if ticks > 0 {
        raft_laws::ticking_takes_room(a.cluster, ticks as int);
        assert(a.cluster.room(1));
        let (after, result) = a.cluster.tick();
        let ticked = a.with_cluster(after);
        let reached = raft_model::commits(after.nodes);
        let count = raft_model::count_reaching(reached, index);
        raft_model::counts_are_bounded(reached, index);
        if settled(a.cluster, entry) {
            raft_visibility::ticks_stay_settled(a.cluster, entry);
            raft_visibility::settled_is_valid(after, entry);
            if result is Ok {
                assert(count as usize == count);
                if count < after.quorum() {
                    awaiting_settles(ticked, g, index, (ticks - 1) as nat, count as usize, entry);
                }
            }
        } else {
            let l = a.cluster.leader_at();
            let k = raft_steps::ticking_is_explained(a.cluster, g, l);
            raft_soundness::explained_place(after, k, after.leader_at());
            assert(reached.take(reached.len() as int) =~= reached);
            unanchored_is_uncommitted(after, k, index, reached);
            if result is Ok {
                awaiting_settles(ticked, k, index, (ticks - 1) as nat, 0, entry);
            }
        }
    }
}

/// A write that is acknowledged is settled: it is committed for good, and
/// whoever holds it knows.
#[verifier::rlimit(40)]
pub proof fn acknowledged_writes_are_settled(
    a: ApiV,
    to: NodeId,
    command: CommandV,
    timeout: Option<u64>,
)
    requires
        in_step(a),
        a.room_to_write(to, command, timeout),
    ensures
        ({
            let (after, response) = a.write(to, command, timeout);
            let entry = a.cluster.next_entry(command);
            response matches ClientResponseV::WriteCommitted { index, .. } ==> index == entry.index
                && settled(after.cluster, entry)
        }),
{
    reveal(ApiV::write);
    api_versions::cluster_is_valid(a);
    let entry = a.cluster.next_entry(command);
    let fresh = a.drop_stale_lease();
    if to == a.cluster.leader_id && a.pending() < a.config.max_pending_entries {
        let (after, result) = a.cluster.propose(command);
        if let Ok(outcome) = result {
            let g = raft_visibility::proposals_settle(a.cluster, command);
            let l = after.leader_at();
            raft_soundness::explained_place(after, g, l);
            raft_laws::proposing_takes_room(a.cluster, command, 1);
            let reached = raft_model::commits(after.nodes);
            raft_model::counts_are_bounded(reached, entry.index);
            assert(outcome.committed_nodes == raft_model::count_reaching(reached, entry.index)) by {
                reveal(ClusterV::propose);
            }
            if after.nodes[l].commit_index < entry.index {
                assert(reached.take(reached.len() as int) =~= reached);
                unanchored_is_uncommitted(after, g, entry.index, reached);
            }
            if outcome.committed_nodes < after.quorum() {
                awaiting_settles(
                    fresh.with_cluster(after),
                    g,
                    entry.index,
                    a.write_ticks(timeout) as nat,
                    outcome.committed_nodes,
                    entry,
                );
            }
        }
    }
}

/// A write leaves settled entries settled.
#[verifier::rlimit(40)]
proof fn writes_stay_settled(
    a: ApiV,
    to: NodeId,
    command: CommandV,
    timeout: Option<u64>,
    entry: LogEntryV,
)
    requires
        settled(a.cluster, entry),
        a.room_to_write(to, command, timeout),
    ensures
        settled(a.write(to, command, timeout).0.cluster, entry),
{
    reveal(ApiV::write);
    raft_visibility::settled_is_valid(a.cluster, entry);
    let fresh = a.drop_stale_lease();
    if to == a.cluster.leader_id && a.pending() < a.config.max_pending_entries {
        raft_visibility::proposals_stay_settled(a.cluster, command, entry);
        let (after, result) = a.cluster.propose(command);
        raft_visibility::settled_is_valid(after, entry);
        if let Ok(outcome) = result {
            if outcome.committed_nodes < after.quorum() {
                let g = choose|g: History| #[trigger] g.explains(after, after.leader_at());
                awaiting_settles(
                    fresh.with_cluster(after),
                    g,
                    outcome.index,
                    a.write_ticks(timeout) as nat,
                    outcome.committed_nodes,
                    entry,
                );
            }
        }
    }
}

/// Asking for a quorum leaves settled entries settled.
#[verifier::rlimit(40)]
proof fn asking_stays_settled(a: ApiV, to: NodeId, ticks: nat, entry: LogEntryV)
    requires
        settled(a.cluster, entry),
        ticks <= u64::MAX,
        a.room_to_ask(to, ticks as u64),
    ensures
        settled(a.await_quorum(to, ticks).0.cluster, entry),
    decreases ticks,
{
    raft_visibility::settled_is_valid(a.cluster, entry);
    if to == a.cluster.leader_id {
        raft_visibility::heartbeats_stay_settled(a.cluster, entry);
        raft_laws::heartbeats_take_no_room(a.cluster);
        let (after, result) = a.cluster.heartbeat_round();
        let asked = a.with_cluster(after);
        raft_visibility::settled_is_valid(after, entry);
        if let Ok(round) = result {
            if round.acknowledged_nodes < round.quorum && ticks > 0 {
                assert(after.room(ticks as int));
                assert(after.room(1));
                raft_laws::ticking_takes_room(after, ticks as int);
                raft_visibility::ticks_stay_settled(after, entry);
                let next = asked.with_cluster(after.tick().0).drop_stale_lease();
                if after.tick().1 is Ok {
                    asking_stays_settled(next, to, (ticks - 1) as nat, entry);
                }
            }
        }
    }
}

/// Finding the time of a read leaves settled entries settled.
proof fn read_times_stay_settled(
    a: ApiV,
    to: NodeId,
    consistency: ReadConsistency,
    timeout: Option<u64>,
    entry: LogEntryV,
)
    requires
        settled(a.cluster, entry),
        a.room_to_read(to, consistency, timeout),
    ensures
        settled(a.read_time(to, consistency, timeout).0.cluster, entry),
{
    reveal(ApiV::ensure_lease);
    let fresh = a.drop_stale_lease();
    if consistency == ReadConsistency::Linearizable && to == a.cluster.leader_id
        && fresh.read_lease is None {
        asking_stays_settled(fresh, to, fresh.read_ticks(timeout) as nat, entry);
    }
}

proof fn writing_rows_stays_settled(
    a: ApiV,
    to: NodeId,
    rows: Seq<(Seq<char>, Seq<char>)>,
    i: nat,
    value: Option<Seq<char>>,
    timeout: Option<u64>,
    last_index: Option<Index>,
    committed: usize,
    entry: LogEntryV,
)
    requires
        settled(a.cluster, entry),
        a.room_to_write_rows(to, rows, i, value, timeout),
    ensures
        settled(
            a.write_rows(to, rows, i, value, timeout, last_index, committed).0.cluster,
            entry,
        ),
    decreases rows.len() - i,
{
    if i < rows.len() {
        let command = api_model::row_command(rows[i as int].0, value);
        writes_stay_settled(a, to, command, timeout, entry);
        let (b, response) = a.write(to, command, timeout);
        if let ClientResponseV::WriteCommitted { index, committed_nodes } = response {
            writing_rows_stays_settled(
                b,
                to,
                rows,
                i + 1,
                value,
                timeout,
                Some(index),
                committed_nodes,
                entry,
            );
        }
    }
}

proof fn mutations_stay_settled(
    a: ApiV,
    to: NodeId,
    predicate: PredicateV,
    value: Option<Seq<char>>,
    timeout: Option<u64>,
    entry: LogEntryV,
)
    requires
        settled(a.cluster, entry),
        a.room_to_mutate(to, predicate, value, timeout),
    ensures
        settled(a.mutate(to, predicate, value, timeout).0.cluster, entry),
{
    if to == a.cluster.leader_id {
        writing_rows_stays_settled(
            a.in_step_with_the_leader(),
            to,
            a.affected(predicate),
            0,
            value,
            timeout,
            None,
            0,
            entry,
        );
    }
}

/// Whatever is requested, acknowledged writes stay settled.
pub proof fn requests_stay_settled(a: ApiV, envelope: RequestEnvelopeV, entry: LogEntryV)
    requires
        settled(a.cluster, entry),
        a.room_for_envelope(envelope),
    ensures
        settled(a.handle(envelope).0.cluster, entry),
{
    let to = envelope.to.node_id;
    let timeout = envelope.timeout_ticks;
    if api_model::address_of(a.addresses, to) == Some(envelope.to) {
        match envelope.request {
            ClientRequestV::Write(command) => {
                writes_stay_settled(a, to, command, timeout, entry);
            },
            ClientRequestV::Read { consistency, .. } => {
                read_times_stay_settled(a, to, consistency, timeout, entry);
            },
            ClientRequestV::Sql { query, read_consistency } => {
                if let Ok(plan) = ApiV::plan_of(query) {
                    match plan {
                        KvExecutionPlanV::Select { .. } => {
                            read_times_stay_settled(a, to, read_consistency, timeout, entry);
                        },
                        KvExecutionPlanV::Insert { key, value } => {
                            writes_stay_settled(
                                a,
                                to,
                                CommandV::Put { key, value },
                                timeout,
                                entry,
                            );
                        },
                        KvExecutionPlanV::Delete { predicate } => {
                            mutations_stay_settled(a, to, predicate, None, timeout, entry);
                        },
                        KvExecutionPlanV::Update { value, predicate } => {
                            mutations_stay_settled(a, to, predicate, Some(value), timeout, entry);
                        },
                    }
                }
            },
        }
    }
}

/// A linearizable read that is answered sees every acknowledged write: it
/// returns what the key holds after entries among which the write stands at its
/// index.
pub proof fn linearizable_reads_see_acknowledged_writes(
    a: ApiV,
    to: NodeId,
    key: Seq<char>,
    timeout: Option<u64>,
    entry: LogEntryV,
) -> (entries: Seq<LogEntryV>)
    requires
        in_step(a),
        settled(a.cluster, entry),
        a.room_to_read(to, ReadConsistency::Linearizable, timeout),
    ensures
        ({
            let (after, response) = a.read(to, key, ReadConsistency::Linearizable, timeout);
            response matches ClientResponseV::ReadResult { value, .. } ==> {
                &&& value == state_machine::lookup(
                    state_machine::replayed(KvMap::empty(), entries),
                    key,
                )
                &&& 1 <= entry.index <= entries.len()
                &&& entries[entry.index - 1] == entry
            }
        }),
{
    let consistency = ReadConsistency::Linearizable;
    api_versions::linearizable_reads_return_the_state(a, to, key, timeout);
    read_times_stay_settled(a, to, consistency, timeout, entry);
    let after = a.read(to, key, consistency, timeout).0;
    raft_visibility::settled_entries_are_in_the_state(after.cluster, entry)
}

/// Nor are acknowledged writes lost to calls and restarts: whoever opens the
/// cluster again after any of them reads them.
pub proof fn acknowledged_writes_survive(
    c: ClusterV,
    calls: Seq<CallV>,
    entry: LogEntryV,
    config: TransportConfig,
    to: NodeId,
    key: Seq<char>,
    timeout: Option<u64>,
) -> (entries: Seq<LogEntryV>)
    requires
        settled(c, entry),
        raft_runs::can_be_called(c, calls) || (kept(c) && raft_runs::can_be_survived(c, calls)),
        ApiV::opened(raft_runs::after_calls(c, calls), config).room_to_read(
            to,
            ReadConsistency::Linearizable,
            timeout,
        ),
    ensures
        ({
            let a = ApiV::opened(raft_runs::after_calls(c, calls), config);
            let (after, response) = a.read(to, key, ReadConsistency::Linearizable, timeout);
            response matches ClientResponseV::ReadResult { value, .. } ==> {
                &&& value == state_machine::lookup(
                    state_machine::replayed(KvMap::empty(), entries),
                    key,
                )
                &&& 1 <= entry.index <= entries.len()
                &&& entries[entry.index - 1] == entry
            }
        }),
{
    let d = raft_runs::after_calls(c, calls);
    raft_runs::runs_stay_settled(c, calls, entry);
    raft_visibility::settled_is_valid(d, entry);
    api_versions::opened_in_step(d, config);
    linearizable_reads_see_acknowledged_writes(ApiV::opened(d, config), to, key, timeout, entry)
}

} // verus!
