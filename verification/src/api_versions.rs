//! What the versions show: the committed state, in every state of the client
//! interface.
use vstd::prelude::*;

use crate::api_laws;
use crate::api_model;
use crate::api_model::ApiV;
use crate::api_types::{
    ClientRequestV, ClientResponseV, ReadConsistency, RequestEnvelopeV, TransportConfig,
};
use crate::mvcc;
use crate::mvcc::{CatalogV, Timestamp, VersionV};
use crate::ordered;
use crate::raft_guarantees;
use crate::raft_guarantees::leads_to;
use crate::raft_history;
use crate::raft_history::state_at;
use crate::raft_laws;
use crate::raft_model;
use crate::raft_model::ClusterV;
use crate::raft_soundness;
use crate::raft_soundness::{sound, History};
use crate::raft_steps;
use crate::sql_ast::{ColumnName, KvExecutionPlanV, PredicateV};
use crate::sql_plan;
use crate::state_machine;
use crate::state_machine::KvMap;
use crate::types::{CommandV, Index, LogEntryV, NodeId};

verus! {

/// From a time on, every key reads as in the state.
pub open spec fn shows(mvcc: CatalogV, from: Timestamp, state: KvMap) -> bool {
    forall|key: Seq<char>, ts: Timestamp|
        ts >= from ==> #[trigger] mvcc.read(key, ts) == state_machine::lookup(state, key)
}

/// At every time from the first through the last, every key reads as in the
/// state that the log has built by then, and after that as at the last.
pub open spec fn shows_through(
    mvcc: CatalogV,
    first: Index,
    last: Index,
    whole: Seq<LogEntryV>,
) -> bool {
    forall|key: Seq<char>, ts: Timestamp|
        ts >= first ==> #[trigger] mvcc.read(key, ts) == state_machine::lookup(
            state_at(
                whole,
                if ts < last {
                    ts as int
                } else {
                    last as int
                },
            ),
            key,
        )
}

/// From their first index through their last, the versions show the states
/// there, and these are committed for good. Their keys can be put in order.
pub open spec fn shows_committed(a: ApiV, h: History, l: int) -> bool {
    &&& mvcc::sortable(a.mvcc.chains)
    &&& a.mvcc_first_index <= a.mvcc_last_applied_index <= h.anchor
    &&& shows_through(a.mvcc, a.mvcc_first_index, a.mvcc_last_applied_index, h.logs[l])
}

/// The cluster is sound, and the versions show what it has committed.
pub open spec fn in_step(a: ApiV) -> bool {
    exists|h: History| #[trigger]
        h.explains(a.cluster, a.cluster.leader_at()) && shows_committed(
            a,
            h,
            a.cluster.leader_at(),
        )
}

/// Versions made of a state read as that state from their time on.
pub proof fn versions_of_a_state_read_as_it(state: KvMap, at: Timestamp, from: Timestamp)
    requires
        at <= from,
    ensures
        shows(api_model::catalog_of(state, at), from, state),
{
    let catalog = api_model::catalog_of(state, at);
    assert forall|key: Seq<char>, ts: Timestamp| ts >= from implies #[trigger] catalog.read(key, ts)
        == state_machine::lookup(state, key) by {
        if state.contains_key(key) {
            let open = VersionV {
                begin_ts: at,
                end_ts: None,
                value: Some(state[key]),
                writer_txn: 0,
            };
            assert(catalog.chains[key] =~= seq![open]);
            assert(seq![open].last() == open);
        }
    }
}

/// The keys of a state that entries build can be put in order.
proof fn states_can_be_sorted(entries: Seq<LogEntryV>, at: Timestamp)
    ensures
        mvcc::sortable(
            api_model::catalog_of(state_machine::replayed(KvMap::empty(), entries), at).chains,
        ),
    decreases entries.len(),
{
    let state = state_machine::replayed(KvMap::empty(), entries);
    let chains = api_model::catalog_of(state, at).chains;
    if entries.len() == 0 {
        let none = Seq::<(Seq<char>, Seq<VersionV>)>::empty();
        assert(ordered::map_of(none) =~= chains);
        assert(ordered::ascending(none));
    } else {
        states_can_be_sorted(entries.drop_last(), at);
        let before = state_machine::replayed(KvMap::empty(), entries.drop_last());
        let rest = api_model::catalog_of(before, at).chains;
        let pairs = choose|pairs: Seq<(Seq<char>, Seq<VersionV>)>|
            ordered::ascending(pairs) && #[trigger] ordered::map_of(pairs) == rest;
        match entries.last().command {
            CommandV::Put { key, value } => {
                let open = VersionV {
                    begin_ts: at,
                    end_ts: None,
                    value: Some(value),
                    writer_txn: 0,
                };
                assert(chains =~= rest.insert(key, seq![open]));
                let more = ordered::inserting_keeps_order(pairs, key, seq![open]);
                assert(ordered::map_of(more) == chains);
            },
            CommandV::Delete { key } => {
                assert(chains =~= rest.remove(key));
                let less = ordered::removing_keeps_order(pairs, key);
                assert(ordered::map_of(less) == chains);
            },
        }
    }
}

/// Noting entries leaves keys that can be put in order.
proof fn noting_stays_sortable(mvcc: CatalogV, entries: Seq<LogEntryV>)
    requires
        mvcc::sortable(mvcc.chains),
    ensures
        mvcc::sortable(api_model::noted(mvcc, entries).chains),
    decreases entries.len(),
{
    if entries.len() > 0 {
        let entry = entries.last();
        noting_stays_sortable(mvcc, entries.drop_last());
        mvcc::committing_stays_sortable(
            api_model::noted(mvcc, entries.drop_last()),
            state_machine::key_of(entry.command),
            api_model::written_value(entry.command),
            entry.index,
            entry.index,
        );
    }
}

/// A version of an entry is read from the entry's index on; before that
/// everything reads as without it.
proof fn noting_an_entry(mvcc: CatalogV, entry: LogEntryV, key: Seq<char>, ts: Timestamp)
    ensures
        mvcc.committed(
            state_machine::key_of(entry.command),
            api_model::written_value(entry.command),
            entry.index,
            entry.index,
        ).read(key, ts) == if key == state_machine::key_of(entry.command) && ts >= entry.index {
            api_model::written_value(entry.command)
        } else {
            mvcc.read(key, ts)
        },
{
    mvcc::commits_are_seen_from_their_time_on(
        mvcc::versions_of(mvcc.chains, key),
        entry.index,
        entry.index,
        api_model::written_value(entry.command),
        ts,
    );
}

/// Noting the entries of a log after those that the versions show leaves
/// versions that show these too.
proof fn noting_shows(
    mvcc: CatalogV,
    first: Index,
    from: Index,
    whole: Seq<LogEntryV>,
    last: Index,
)
    requires
        shows_through(mvcc, first, from, whole),
        first <= from <= last <= whole.len(),
        forall|k: int| 0 <= k < whole.len() ==> (#[trigger] whole[k]).index == k + 1,
    ensures
        shows_through(
            api_model::noted(mvcc, whole.subrange(from as int, last as int)),
            first,
            last,
            whole,
        ),
    decreases last - from,
{
    let entries = whole.subrange(from as int, last as int);
    if from < last {
        let before = (last - 1) as Index;
        let rest = whole.subrange(from as int, before as int);
        let entry = whole[before as int];
        noting_shows(mvcc, first, from, whole, before);
        assert(entries.drop_last() =~= rest);
        assert(entries.last() == entry);
        assert(whole.take(last as int).drop_last() =~= whole.take(before as int));
        assert(whole.take(last as int).last() == entry);
        let noted = api_model::noted(mvcc, entries);
        assert forall|key: Seq<char>, ts: Timestamp| ts >= first implies #[trigger] noted.read(
            key,
            ts,
        ) == state_machine::lookup(
            state_at(
                whole,
                if ts < last {
                    ts as int
                } else {
                    last as int
                },
            ),
            key,
        ) by {
            noting_an_entry(api_model::noted(mvcc, rest), entry, key, ts);
        }
    }
}

/// Versions made of a member's state show what is committed.
proof fn restating_shows(a: ApiV, h: History, i: int)
    requires
        h.explains(a.cluster, a.cluster.leader_at()),
        0 <= i < a.cluster.nodes.len(),
    ensures
        in_step(a.restated(i)),
        shows(
            a.restated(i).mvcc,
            a.cluster.nodes[i].commit_index,
            a.cluster.nodes[i].state,
        ),
{
    let l = a.cluster.leader_at();
    let node = a.cluster.nodes[i];
    raft_soundness::explained_member(a.cluster, h, l, i);
    versions_of_a_state_read_as_it(node.state, node.commit_index, node.commit_index);
    states_can_be_sorted(h.logs[i].take(node.commit_index as int), node.commit_index);
    shown_is_in_step(a.restated(i), h);
}

/// Where a history explains the cluster and the versions show it, the interface
/// is in step.
proof fn shown_is_in_step(a: ApiV, h: History)
    requires
        h.explains(a.cluster, a.cluster.leader_at()),
        shows_committed(a, h, a.cluster.leader_at()),
    ensures
        in_step(a),
{
}

/// A new interface to a sound cluster is in step.
pub proof fn opened_in_step(c: ClusterV, config: TransportConfig)
    requires
        sound(c),
    ensures
        in_step(ApiV::opened(c, config)),
{
    let l = c.leader_at();
    let h = choose|h: History| #[trigger] h.explains(c, l);
    let a = ApiV::opened(c, config);
    raft_soundness::explained_place(c, h, l);
    raft_soundness::explained_member(c, h, l, l);
    let commit = c.nodes[l].commit_index;
    versions_of_a_state_read_as_it(c.nodes[l].state, 0, commit);
    states_can_be_sorted(h.logs[l].take(commit as int), 0);
    shown_is_in_step(a, h);
}

/// What the cluster goes on to leaves what the versions show committed.
proof fn leading_on_shows(a: ApiV, h: History, d: ClusterV) -> (g: History)
    requires
        h.explains(a.cluster, a.cluster.leader_at()),
        shows_committed(a, h, a.cluster.leader_at()),
        leads_to(a.cluster, d),
    ensures
        g.explains(d, d.leader_at()),
        shows_committed(a.with_cluster(d), g, d.leader_at()),
        raft_steps::succeeds(h, a.cluster.leader_at(), g, d.leader_at()),
{
    let l = a.cluster.leader_at();
    let m = d.leader_at();
    let g = choose|g: History| #[trigger]
        g.explains(d, m) && raft_steps::succeeds(h, l, g, m);
    assert forall|key: Seq<char>, ts: Timestamp| ts >= a.mvcc_first_index implies #[trigger]
        a.mvcc.read(key, ts) == state_machine::lookup(
        state_at(
            g.logs[m],
            if ts < a.mvcc_last_applied_index {
                ts as int
            } else {
                a.mvcc_last_applied_index as int
            },
        ),
        key,
    ) by {
        raft_history::agreeing_reaches_back(
            h.logs[l],
            g.logs[m],
            h.anchor,
            if ts < a.mvcc_last_applied_index {
                ts as int
            } else {
                a.mvcc_last_applied_index as int
            },
        );
    }
    g
}

/// Whatever calls change the cluster beside the interface, it stays in step.
pub proof fn other_calls_stay_in_step(a: ApiV, d: ClusterV)
    requires
        in_step(a),
        leads_to(a.cluster, d),
    ensures
        in_step(a.with_cluster(d)),
{
    let h = choose|h: History| #[trigger]
        h.explains(a.cluster, a.cluster.leader_at()) && shows_committed(
            a,
            h,
            a.cluster.leader_at(),
        );
    let g = leading_on_shows(a, h, d);
    shown_is_in_step(a.with_cluster(d), g);
}

/// Noting what is committed through an index that some member has reached, and
/// that the versions do not reach yet.
proof fn noting_commits_shows(a: ApiV, h: History, index: Index, i: int)
    requires
        h.explains(a.cluster, a.cluster.leader_at()),
        shows_committed(a, h, a.cluster.leader_at()),
        a.mvcc_last_applied_index < index,
        0 <= i < a.cluster.nodes.len(),
        index <= a.cluster.nodes[i].commit_index,
    ensures
        in_step(a.note_commits(index)),
{
    let l = a.cluster.leader_at();
    raft_soundness::explained_member(a.cluster, h, l, i);
    let leader = a.cluster.nodes[l];
    let whole = h.logs[l];
    raft_history::rest_shows(leader.log, whole);
    let base = leader.log.base_index as int;
    let from = a.mvcc_last_applied_index as int;
    let b = a.note_commits(index);
    if base <= from {
        let entries = leader.log.entries.subrange(from - base, index - base);
        assert(entries =~= whole.subrange(from, index as int));
        noting_shows(a.mvcc, a.mvcc_first_index, a.mvcc_last_applied_index, whole, index);
        noting_stays_sortable(a.mvcc, entries);
        shown_is_in_step(b, h);
    } else {
        raft_soundness::explained_place(a.cluster, h, l);
        restating_shows(a, h, l);
    }
}

/// Of numbers that any reach, one does.
proof fn some_reach(numbers: Seq<Index>, least: Index) -> (at: int)
    requires
        raft_model::count_reaching(numbers, least) > 0,
    ensures
        0 <= at < numbers.len(),
        numbers[at] >= least,
    decreases numbers.len(),
{
    if numbers.last() >= least {
        numbers.len() - 1
    } else {
        some_reach(numbers.drop_last(), least)
    }
}

/// Waiting for a commit stays in step.
proof fn awaiting_stays_in_step(
    a: ApiV,
    h: History,
    index: Index,
    ticks: nat,
    observed: usize,
)
    requires
        a.cluster.wf(),
        a.cluster.room(ticks as int),
        h.explains(a.cluster, a.cluster.leader_at()),
        shows_committed(a, h, a.cluster.leader_at()),
        a.mvcc_last_applied_index < index,
    ensures
        in_step(a.await_commit(index, ticks, observed).0),
    decreases ticks,
{
    if ticks == 0 {
        shown_is_in_step(a, h);
    } else {
        raft_laws::ticking_takes_room(a.cluster, ticks as int);
        assert(a.cluster.room(1));
        raft_guarantees::ticks_lead_on(a.cluster);
        let (after, result) = a.cluster.tick();
        let g = leading_on_shows(a, h, after);
        let ticked = a.with_cluster(after);
        shown_is_in_step(ticked, g);
        if result is Ok {
            let reached = raft_model::commits(after.nodes);
            let count = raft_model::count_reaching(reached, index);
            raft_model::counts_are_bounded(reached, index);
            assert(count as usize == count);
            if count >= after.quorum() {
                let i = some_reach(reached, index);
                noting_commits_shows(ticked, g, index, i);
            } else {
                awaiting_stays_in_step(ticked, g, index, (ticks - 1) as nat, count as usize);
            }
        }
    }
}

/// A write stays in step.
pub proof fn writes_stay_in_step(a: ApiV, to: NodeId, command: CommandV, timeout: Option<u64>)
    requires
        in_step(a),
        a.room_to_write(to, command, timeout),
    ensures
        in_step(a.write(to, command, timeout).0),
{
    reveal(ApiV::write);
    let l = a.cluster.leader_at();
    let h = choose|h: History| #[trigger]
        h.explains(a.cluster, l) && shows_committed(a, h, l);
    raft_soundness::explained_place(a.cluster, h, l);
    raft_soundness::explained_member(a.cluster, h, l, l);
    raft_history::rest_shows(a.cluster.nodes[l].log, h.logs[l]);
    let fresh = a.drop_stale_lease();
    assert(shows_committed(fresh, h, l));
    shown_is_in_step(fresh, h);
    if to == a.cluster.leader_id && a.pending() < a.config.max_pending_entries {
        raft_laws::proposing_takes_room(a.cluster, command, 1);
        raft_guarantees::proposals_lead_on(a.cluster, command);
        let (after, result) = a.cluster.propose(command);
        let g = leading_on_shows(fresh, h, after);
        let proposed = fresh.with_cluster(after);
        shown_is_in_step(proposed, g);
        if let Ok(outcome) = result {
            let index = outcome.index;
            let reached = raft_model::commits(after.nodes);
            assert(index == h.logs[l].len() + 1 && outcome.committed_nodes
                == raft_model::count_reaching(reached, index)) by {
                reveal(ClusterV::propose);
                raft_model::counts_are_bounded(reached, index);
            }
            if outcome.committed_nodes >= after.quorum() {
                let i = some_reach(reached, index);
                noting_commits_shows(proposed, g, index, i);
            } else {
                awaiting_stays_in_step(
                    proposed,
                    g,
                    index,
                    a.write_ticks(timeout) as nat,
                    outcome.committed_nodes,
                );
            }
        }
    }
}

/// Asking for a quorum stays in step.
proof fn asking_stays_in_step(a: ApiV, to: NodeId, ticks: nat)
    requires
        in_step(a),
        ticks <= u64::MAX,
        a.room_to_ask(to, ticks as u64),
    ensures
        in_step(a.await_quorum(to, ticks).0),
    decreases ticks,
{
    let l = a.cluster.leader_at();
    let h = choose|h: History| #[trigger]
        h.explains(a.cluster, l) && shows_committed(a, h, l);
    raft_soundness::explained_place(a.cluster, h, l);
    if to == a.cluster.leader_id {
        raft_guarantees::heartbeats_lead_on(a.cluster);
        raft_laws::heartbeats_take_no_room(a.cluster);
        let (after, result) = a.cluster.heartbeat_round();
        let asked = a.with_cluster(after);
        other_calls_stay_in_step(a, after);
        if let Ok(round) = result {
            if round.acknowledged_nodes >= round.quorum {
                leases_do_not_matter(asked, asked.record_lease(round));
            } else if ticks > 0 {
                assert(after.room(ticks as int));
                assert(after.room(1));
                raft_laws::ticking_takes_room(after, ticks as int);
                raft_guarantees::ticks_lead_on(after);
                let ticked = after.tick().0;
                other_calls_stay_in_step(asked, ticked);
                let next = asked.with_cluster(ticked).drop_stale_lease();
                leases_do_not_matter(asked.with_cluster(ticked), next);
                if after.tick().1 is Ok {
                    asking_stays_in_step(next, to, (ticks - 1) as nat);
                }
            }
        }
    }
}

/// Being in step has nothing to do with leases.
proof fn leases_do_not_matter(a: ApiV, b: ApiV)
    requires
        in_step(a),
        b == (ApiV { read_lease: b.read_lease, ..a }),
    ensures
        in_step(b),
{
    let l = a.cluster.leader_at();
    let h = choose|h: History| #[trigger]
        h.explains(a.cluster, l) && shows_committed(a, h, l);
    assert(shows_committed(b, h, l));
    shown_is_in_step(b, h);
}

/// Finding the time of a read stays in step.
proof fn read_times_stay_in_step(
    a: ApiV,
    to: NodeId,
    consistency: ReadConsistency,
    timeout: Option<u64>,
)
    requires
        in_step(a),
        a.room_to_read(to, consistency, timeout),
    ensures
        in_step(a.read_time(to, consistency, timeout).0),
        a.cluster.wf(),
{
    reveal(ApiV::ensure_lease);
    let l = a.cluster.leader_at();
    let h = choose|h: History| #[trigger]
        h.explains(a.cluster, l) && shows_committed(a, h, l);
    raft_soundness::explained_place(a.cluster, h, l);
    let fresh = a.drop_stale_lease();
    leases_do_not_matter(a, fresh);
    if consistency == ReadConsistency::Linearizable && to == a.cluster.leader_id
        && fresh.read_lease is None {
        asking_stays_in_step(fresh, to, fresh.read_ticks(timeout) as nat);
    }
}

/// Preparing versions for a read at a member stays in step, and at the member's
/// commit index they show its state.
pub proof fn prepared_versions_show(a: ApiV, id: NodeId)
    requires
        in_step(a),
        raft_model::has_member(a.cluster.nodes, id),
    ensures
        ({
            let node = a.cluster.nodes[raft_model::position(a.cluster.nodes, id)];
            let b = a.versions_for(id);
            &&& in_step(b)
            &&& b.cluster == a.cluster
            &&& forall|key: Seq<char>| #[trigger]
                b.mvcc.read(key, node.commit_index) == state_machine::lookup(node.state, key)
        }),
{
    let l = a.cluster.leader_at();
    let i = raft_model::position(a.cluster.nodes, id);
    assert(0 <= i < a.cluster.nodes.len());
    let h = choose|h: History| #[trigger]
        h.explains(a.cluster, l) && shows_committed(a, h, l);
    raft_soundness::explained_member(a.cluster, h, l, i);
    restating_shows(a, h, i);
}

/// Whatever rows are written, the interface stays in step.
proof fn writing_rows_stays_in_step(
    a: ApiV,
    to: NodeId,
    rows: Seq<(Seq<char>, Seq<char>)>,
    i: nat,
    value: Option<Seq<char>>,
    timeout: Option<u64>,
    last_index: Option<Index>,
    committed: usize,
)
    requires
        in_step(a),
        a.room_to_write_rows(to, rows, i, value, timeout),
    ensures
        in_step(a.write_rows(to, rows, i, value, timeout, last_index, committed).0),
    decreases rows.len() - i,
{
    if i < rows.len() {
        let command = api_model::row_command(rows[i as int].0, value);
        writes_stay_in_step(a, to, command, timeout);
        let (b, response) = a.write(to, command, timeout);
        if let ClientResponseV::WriteCommitted { index, committed_nodes } = response {
            writing_rows_stays_in_step(
                b,
                to,
                rows,
                i + 1,
                value,
                timeout,
                Some(index),
                committed_nodes,
            );
        }
    }
}

proof fn mutations_stay_in_step(
    a: ApiV,
    to: NodeId,
    predicate: PredicateV,
    value: Option<Seq<char>>,
    timeout: Option<u64>,
)
    requires
        in_step(a),
        a.room_to_mutate(to, predicate, value, timeout),
    ensures
        in_step(a.mutate(to, predicate, value, timeout).0),
{
    if to == a.cluster.leader_id {
        cluster_is_valid(a);
        raft_laws::leader_has_place(a.cluster);
        prepared_versions_show(a, to);
        writing_rows_stays_in_step(
            a.in_step_with_the_leader(),
            to,
            a.affected(predicate),
            0,
            value,
            timeout,
            None,
            0,
        );
    }
}

/// The cluster of an interface in step is sound, and so valid.
pub proof fn cluster_is_valid(a: ApiV)
    requires
        in_step(a),
    ensures
        sound(a.cluster),
        a.cluster.wf(),
{
    let l = a.cluster.leader_at();
    let h = choose|h: History| #[trigger]
        h.explains(a.cluster, l) && shows_committed(a, h, l);
    raft_soundness::explained_place(a.cluster, h, l);
}

/// The keys that an interface in step has versions of can be put in order.
pub proof fn keys_can_be_sorted(a: ApiV)
    requires
        in_step(a),
    ensures
        mvcc::sortable(a.mvcc.chains),
{
}

/// Reads and queries stay in step.
pub proof fn reading_stays_in_step(
    a: ApiV,
    to: NodeId,
    consistency: ReadConsistency,
    timeout: Option<u64>,
)
    requires
        in_step(a),
        a.room_to_read(to, consistency, timeout),
    ensures
        ({
            let (after, time) = a.read_time(to, consistency, timeout);
            &&& in_step(after)
            &&& time is Ok ==> in_step(after.versions_for(to))
        }),
{
    read_times_stay_in_step(a, to, consistency, timeout);
    api_laws::reads_find_their_time(a, to, consistency, timeout);
    let (after, time) = a.read_time(to, consistency, timeout);
    if time is Ok {
        prepared_versions_show(after, to);
    }
}

/// Whatever is requested, the interface stays in step.
pub proof fn requests_stay_in_step(a: ApiV, envelope: RequestEnvelopeV)
    requires
        in_step(a),
        a.room_for_envelope(envelope),
    ensures
        in_step(a.handle(envelope).0),
{
    let to = envelope.to.node_id;
    let timeout = envelope.timeout_ticks;
    if api_model::address_of(a.addresses, to) == Some(envelope.to) {
        match envelope.request {
            ClientRequestV::Write(command) => {
                writes_stay_in_step(a, to, command, timeout);
            },
            ClientRequestV::Read { consistency, .. } => {
                reading_stays_in_step(a, to, consistency, timeout);
            },
            ClientRequestV::Sql { query, read_consistency } => {
                if let Ok(plan) = ApiV::plan_of(query) {
                    match plan {
                        KvExecutionPlanV::Select { .. } => {
                            reading_stays_in_step(a, to, read_consistency, timeout);
                        },
                        KvExecutionPlanV::Insert { key, value } => {
                            writes_stay_in_step(a, to, CommandV::Put { key, value }, timeout);
                        },
                        KvExecutionPlanV::Delete { predicate } => {
                            mutations_stay_in_step(a, to, predicate, None, timeout);
                        },
                        KvExecutionPlanV::Update { value, predicate } => {
                            mutations_stay_in_step(a, to, predicate, Some(value), timeout);
                        },
                    }
                }
            },
        }
    }
}

/// A linearizable read that is answered returns what the leader has committed.
pub proof fn linearizable_reads_return_the_state(
    a: ApiV,
    to: NodeId,
    key: Seq<char>,
    timeout: Option<u64>,
)
    requires
        in_step(a),
        a.room_to_read(to, ReadConsistency::Linearizable, timeout),
    ensures
        ({
            let (after, response) = a.read(to, key, ReadConsistency::Linearizable, timeout);
            let leader = after.cluster.nodes[after.cluster.leader_at()];
            response matches ClientResponseV::ReadResult { value, .. } ==> {
                &&& to == after.cluster.leader_id
                &&& value == state_machine::lookup(leader.state, key)
            }
        }),
{
    let consistency = ReadConsistency::Linearizable;
    read_times_stay_in_step(a, to, consistency, timeout);
    api_laws::reads_find_their_time(a, to, consistency, timeout);
    api_laws::linearizable_reads_are_asked_for(a, to, timeout);
    let (after, time) = a.read_time(to, consistency, timeout);
    if time is Ok {
        prepared_versions_show(after, to);
    }
}

/// A linearizable SELECT that is answered gives the rows that the leader has
/// committed and that meet the predicate, in key order.
pub proof fn linearizable_queries_return_the_state(
    a: ApiV,
    to: NodeId,
    columns: Seq<ColumnName>,
    predicate: Option<PredicateV>,
    timeout: Option<u64>,
) -> (rows: Seq<(Seq<char>, Seq<char>)>)
    requires
        in_step(a),
        a.room_to_read(to, ReadConsistency::Linearizable, timeout),
    ensures
        ({
            let (after, response) = a.select(
                to,
                columns,
                predicate,
                ReadConsistency::Linearizable,
                timeout,
            );
            let leader = after.cluster.nodes[after.cluster.leader_at()];
            response matches ClientResponseV::SqlRows { rows: found, .. } ==> {
                &&& found == api_model::projections(api_model::selected(rows, predicate), columns)
                &&& ordered::ascending(rows)
                &&& forall|key: Seq<char>, value: Seq<char>| #[trigger]
                    rows.contains((key, value)) <==> state_machine::lookup(leader.state, key)
                        == Some(value)
            }
        }),
{
    let consistency = ReadConsistency::Linearizable;
    read_times_stay_in_step(a, to, consistency, timeout);
    api_laws::reads_find_their_time(a, to, consistency, timeout);
    api_laws::linearizable_reads_are_asked_for(a, to, timeout);
    let (after, time) = a.read_time(to, consistency, timeout);
    let ready = after.versions_for(to);
    if let Ok(ts) = time {
        prepared_versions_show(after, to);
        let leader = after.cluster.nodes[after.cluster.leader_at()];
        let rows = ready.mvcc.rows(ts);
        keys_can_be_sorted(ready);
        mvcc::rows_of_a_catalog(ready.mvcc, ts, Seq::empty(), Seq::empty());
        assert forall|key: Seq<char>, value: Seq<char>| #[trigger] rows.contains((key, value))
            <==> state_machine::lookup(leader.state, key) == Some(value) by {
            mvcc::rows_of_a_catalog(ready.mvcc, ts, key, value);
            assert(ready.mvcc.read(key, ts) == state_machine::lookup(leader.state, key));
        }
        rows
    } else {
        Seq::empty()
    }
}

/// An eventual read at any member is answered, and returns what that member has
/// committed.
pub proof fn eventual_reads_return_the_member_state(
    a: ApiV,
    to: NodeId,
    key: Seq<char>,
    timeout: Option<u64>,
)
    requires
        in_step(a),
        raft_model::has_member(a.cluster.nodes, to),
    ensures
        a.read(to, key, ReadConsistency::Eventual, timeout).1 == (ClientResponseV::ReadResult {
            value: state_machine::lookup(
                a.cluster.nodes[raft_model::position(a.cluster.nodes, to)].state,
                key,
            ),
            consistency: ReadConsistency::Eventual,
        }),
{
    prepared_versions_show(a, to);
}

/// An eventual SELECT at any member is answered, with the rows that the member
/// has committed and that meet the predicate, in key order.
pub proof fn eventual_queries_return_the_member_state(
    a: ApiV,
    to: NodeId,
    columns: Seq<ColumnName>,
    predicate: Option<PredicateV>,
    timeout: Option<u64>,
) -> (rows: Seq<(Seq<char>, Seq<char>)>)
    requires
        in_step(a),
        raft_model::has_member(a.cluster.nodes, to),
    ensures
        a.select(to, columns, predicate, ReadConsistency::Eventual, timeout).1 == (
        ClientResponseV::SqlRows {
            columns: sql_plan::headers(columns),
            rows: api_model::projections(api_model::selected(rows, predicate), columns),
            consistency: ReadConsistency::Eventual,
        }),
        ordered::ascending(rows),
        forall|key: Seq<char>, value: Seq<char>| #[trigger]
            rows.contains((key, value)) <==> state_machine::lookup(
                a.cluster.nodes[raft_model::position(a.cluster.nodes, to)].state,
                key,
            ) == Some(value),
{
    let node = a.cluster.nodes[raft_model::position(a.cluster.nodes, to)];
    let ts = node.commit_index;
    let ready = a.versions_for(to);
    prepared_versions_show(a, to);
    let rows = ready.mvcc.rows(ts);
    keys_can_be_sorted(ready);
    mvcc::rows_of_a_catalog(ready.mvcc, ts, Seq::empty(), Seq::empty());
    assert forall|key: Seq<char>, value: Seq<char>| #[trigger] rows.contains((key, value))
        <==> state_machine::lookup(node.state, key) == Some(value) by {
        mvcc::rows_of_a_catalog(ready.mvcc, ts, key, value);
        assert(ready.mvcc.read(key, ts) == state_machine::lookup(node.state, key));
    }
    rows
}

/// Versions never reach beyond the leader's log.
pub proof fn versions_are_behind_the_log(a: ApiV)
    requires
        in_step(a),
    ensures
        a.mvcc_last_applied_index <= a.cluster.nodes[a.cluster.leader_at()].log.last_index(),
{
    let l = a.cluster.leader_at();
    let h = choose|h: History| #[trigger]
        h.explains(a.cluster, l) && shows_committed(a, h, l);
    raft_soundness::explained_place(a.cluster, h, l);
    raft_soundness::explained_member(a.cluster, h, l, l);
    raft_history::rest_shows(a.cluster.nodes[l].log, h.logs[l]);
}

/// Versions that end with the leader's commits show its state.
pub proof fn versions_that_end_with_the_leader(a: ApiV)
    requires
        in_step(a),
        a.mvcc_last_applied_index == a.cluster.nodes[a.cluster.leader_at()].commit_index,
    ensures
        shows(
            a.mvcc,
            a.mvcc_last_applied_index,
            a.cluster.nodes[a.cluster.leader_at()].state,
        ),
{
    let l = a.cluster.leader_at();
    let h = choose|h: History| #[trigger]
        h.explains(a.cluster, l) && shows_committed(a, h, l);
    raft_soundness::explained_place(a.cluster, h, l);
    raft_soundness::explained_member(a.cluster, h, l, l);
}

/// An entry that is committed where a log reaches it.
spec fn held_if_anchored(h: History, l: int, entry: LogEntryV) -> bool {
    1 <= entry.index <= h.anchor ==> h.logs[l][entry.index - 1] == entry
}

proof fn awaiting_acknowledges(
    a: ApiV,
    h: History,
    entry: LogEntryV,
    ticks: nat,
    observed: usize,
) -> (g: History)
    requires
        a.cluster.wf(),
        a.cluster.room(ticks as int),
        h.explains(a.cluster, a.cluster.leader_at()),
        held_if_anchored(h, a.cluster.leader_at(), entry),
        entry.index >= 1,
    ensures
        ({
            let (after, response) = a.await_commit(entry.index, ticks, observed);
            &&& g.explains(after.cluster, after.cluster.leader_at())
            &&& held_if_anchored(g, after.cluster.leader_at(), entry)
        }),
    decreases ticks,
{
    if ticks == 0 {
        h
    } else {
        raft_laws::ticking_takes_room(a.cluster, ticks as int);
        assert(a.cluster.room(1));
        let (after, result) = a.cluster.tick();
        let l = a.cluster.leader_at();
        let m = after.leader_at();
        let g = raft_steps::ticking_is_explained(a.cluster, h, l);
        assert(held_if_anchored(g, m, entry)) by {
            if entry.index <= h.anchor {
                let n = entry.index as int;
                raft_history::agreeing_reaches_back(h.logs[l], g.logs[m], h.anchor, n);
                assert(h.logs[l].take(n)[n - 1] == g.logs[m].take(n)[n - 1]);
            }
        }
        let ticked = a.with_cluster(after);
        let count = raft_model::count_reaching(raft_model::commits(after.nodes), entry.index);
        raft_model::counts_are_bounded(raft_model::commits(after.nodes), entry.index);
        assert(count as usize == count);
        if result is Ok && count < after.quorum() {
            awaiting_acknowledges(ticked, g, entry, (ticks - 1) as nat, count as usize)
        } else {
            g
        }
    }
}

/// A write that is answered as committed is: a quorum holds its entry, the
/// leader holds it, and so does every member that has committed its index. What
/// is committed stays, whatever calls follow.
pub proof fn acknowledged_writes_are_committed(
    a: ApiV,
    to: NodeId,
    command: CommandV,
    timeout: Option<u64>,
)
    requires
        sound(a.cluster),
        a.room_to_write(to, command, timeout),
        a.write(to, command, timeout).1 is WriteCommitted,
    ensures
        ({
            let (after, response) = a.write(to, command, timeout);
            let entry = a.cluster.next_entry(command);
            let c = after.cluster;
            &&& response->WriteCommitted_index == entry.index
            &&& raft_guarantees::holds_entry(c.nodes[c.leader_at()], entry)
            &&& raft_soundness::tally(raft_guarantees::entry_holders(c, entry)) >= c.quorum()
            &&& forall|k: int|
                0 <= k < c.nodes.len() && entry.index <= (#[trigger] c.nodes[k]).commit_index
                    ==> raft_guarantees::holds_entry(c.nodes[k], entry)
            &&& exists|k: int|
                0 <= k < c.nodes.len() && entry.index <= (#[trigger] c.nodes[k]).commit_index
        }),
{
    reveal(ApiV::write);
    let l = a.cluster.leader_at();
    let h = choose|h: History| #[trigger] h.explains(a.cluster, l);
    raft_soundness::explained_place(a.cluster, h, l);
    raft_soundness::explained_member(a.cluster, h, l, l);
    raft_history::rest_shows(a.cluster.nodes[l].log, h.logs[l]);
    raft_laws::proposing_takes_room(a.cluster, command, 1);
    api_laws::writes_settle(a, to, command, timeout);
    let entry = a.cluster.next_entry(command);
    let fresh = a.drop_stale_lease();
    let (proposed, result) = a.cluster.propose(command);
    let outcome = result->Ok_0;
    assert(outcome.index == entry.index) by {
        reveal(ClusterV::propose);
    }
    let g = raft_steps::proposing_is_explained(a.cluster, h, l, command);
    raft_soundness::explained_place(proposed, g, l);
    assert(held_if_anchored(g, l, entry));
    let after = a.write(to, command, timeout).0;
    let e = if outcome.committed_nodes >= proposed.quorum() {
        g
    } else {
        awaiting_acknowledges(
            fresh.with_cluster(proposed),
            g,
            entry,
            a.write_ticks(timeout) as nat,
            outcome.committed_nodes,
        )
    };
    let c = after.cluster;
    let m = c.leader_at();
    raft_soundness::explained_place(c, e, m);
    let reached = raft_model::commits(c.nodes);
    let i = some_reach(reached, entry.index);
    assert(entry.index <= c.nodes[i].commit_index);
    raft_soundness::explained_member(c, e, m, i);
    let found = raft_guarantees::committed_entry_of(c, e, m, i, entry.index);
}

} // verus!
