//! What holds of the client interface.
use vstd::prelude::*;

use crate::api_model;
use crate::api_model::ApiV;
use crate::api_types::{
    AddressV, ClientRequestV, ClientResponseV, ReadConsistency, RequestEnvelopeV, TimeoutOperation,
    TransportConfig,
};
use crate::raft_laws;
use crate::raft_model;
use crate::raft_model::ClusterV;
use crate::raft_node::MIN_ELECTION_TIMEOUT_TICKS;
use crate::sql_ast::{KvExecutionPlanV, PredicateV};
use crate::sql_plan;
use crate::types::{CommandV, Index, NodeId};

verus! {

/// What every operation of the interface keeps: the cluster stays valid and
/// only advances, and the addresses and the configuration stay.
pub open spec fn goes_on(before: ApiV, after: ApiV) -> bool {
    &&& after.cluster.wf()
    &&& raft_laws::advances(before.cluster, after.cluster)
    &&& after.addresses == before.addresses
    &&& after.config == before.config
}

/// Waiting for a commit keeps what every operation keeps, and takes no more
/// room than the ticks that it may wait.
pub proof fn awaiting_goes_on(
    a: ApiV,
    index: Index,
    ticks: nat,
    observed: usize,
    spare: int,
)
    requires
        a.cluster.wf(),
        spare >= 0,
        a.cluster.room(ticks + spare),
    ensures
        goes_on(a, a.await_commit(index, ticks, observed).0),
        a.await_commit(index, ticks, observed).0.cluster.room(spare),
        forall|m: int|
            a.cluster.log_room(m) ==> #[trigger] a.await_commit(index, ticks, observed).0.cluster.log_room(m),
    decreases ticks,
{
    if ticks > 0 {
        raft_laws::ticking_takes_room(a.cluster, ticks + spare);
        let after = a.cluster.tick().0;
        let ticked = a.with_cluster(after);
        let count = raft_model::count_reaching(raft_model::commits(after.nodes), index) as usize;
        if a.cluster.tick().1 is Ok && count < after.quorum() {
            awaiting_goes_on(ticked, index, (ticks - 1) as nat, count, spare);
            let end = ticked.await_commit(index, (ticks - 1) as nat, count).0;
            raft_laws::advances_transitive(a.cluster, after, end.cluster);
            assert(a.await_commit(index, ticks, observed).0 == end);
            assert forall|m: int| a.cluster.log_room(m) implies #[trigger] a.await_commit(index, ticks, observed).0.cluster.log_room(m) by {
                assert(after.log_room(m));
                assert(ticked.await_commit(index, (ticks - 1) as nat, count).0.cluster.log_room(m));
            }
        } else {
            assert(a.await_commit(index, ticks, observed).0.cluster == after);
        }
    }
}

/// A write keeps what every operation keeps.
pub proof fn writing_goes_on(a: ApiV, to: NodeId, command: CommandV, timeout: Option<u64>)
    requires
        a.cluster.wf(),
        a.room_to_write(to, command, timeout),
    ensures
        goes_on(a, a.write(to, command, timeout).0),
{
    reveal(ApiV::write);
    raft_laws::valid_is_bounded(a.cluster);
    let fresh = a.drop_stale_lease();
    if to == a.cluster.leader_id && a.pending() < a.config.max_pending_entries {
        raft_laws::proposing_takes_room(a.cluster, command, 1);
        let (after, result) = a.cluster.propose(command);
        if let Ok(outcome) = result {
            if outcome.committed_nodes < after.quorum() {
                let proposed = fresh.with_cluster(after);
                let ticks = a.write_ticks(timeout) as nat;
                awaiting_goes_on(proposed, outcome.index, ticks, outcome.committed_nodes, 0);
                let end = proposed.await_commit(outcome.index, ticks, outcome.committed_nodes).0;
                raft_laws::advances_transitive(a.cluster, after, end.cluster);
            }
        }
    }
}

/// One of `n` writes keeps what every operation keeps, and leaves room for the
/// others.
pub proof fn one_of_many_writes_goes_on(
    a: ApiV,
    to: NodeId,
    command: CommandV,
    timeout: Option<u64>,
    n: int,
)
    requires
        a.cluster.wf(),
        n >= 1,
        a.room_for_writes(n, a.write_ticks(timeout)),
    ensures
        goes_on(a, a.write(to, command, timeout).0),
        a.room_to_write(to, command, timeout),
        a.write(to, command, timeout).0.room_for_writes(n - 1, a.write_ticks(timeout)),
{
    reveal(ApiV::write);
    let ticks = a.write_ticks(timeout) as int;
    let fresh = a.drop_stale_lease();
    assert(n * ticks == ticks + (n - 1) * ticks && (n - 1) * ticks >= 0 && ticks >= 0)
        by (nonlinear_arith)
        requires
            n >= 1,
            ticks >= 0,
    ;
    raft_laws::proposing_takes_room(a.cluster, command, n);
    let after = a.cluster.propose(command).0;
    assert(after.room(n * ticks));
    assert(after.room((n - 1) * ticks));
    assert(a.cluster.log_room(n - 1));
    assert(a.cluster.room((n - 1) * ticks));
    match a.cluster.propose(command).1 {
        Err(_) => {},
        Ok(outcome) => {
            let proposed = fresh.with_cluster(after);
            awaiting_goes_on(
                proposed,
                outcome.index,
                ticks as nat,
                outcome.committed_nodes,
                (n - 1) * ticks,
            );
            let end = proposed.await_commit(
                outcome.index,
                ticks as nat,
                outcome.committed_nodes,
            ).0;
            raft_laws::advances_transitive(a.cluster, after, end.cluster);
            assert(end.cluster.log_room(n - 1));
        },
    }
}

/// Asking for a quorum keeps what every operation keeps, where the ticks that
/// it may wait find room. Where it succeeds, the answer names the leader.
pub proof fn asking_goes_on(a: ApiV, to: NodeId, ticks: nat)
    requires
        a.cluster.wf(),
        ticks <= u64::MAX,
        a.room_to_ask(to, ticks as u64),
    ensures
        goes_on(a, a.await_quorum(to, ticks).0),
        a.await_quorum(to, ticks).1 matches Ok(leader) ==> leader == to && a.await_quorum(
            to,
            ticks,
        ).0.cluster.leader_id == to,
    decreases ticks,
{
    if to == a.cluster.leader_id {
        raft_laws::heartbeats_take_no_room(a.cluster);
        let (after, result) = a.cluster.heartbeat_round();
        rounds_keep_the_leader(a.cluster);
        let asked = a.with_cluster(after);
        match result {
            Err(_) => {},
            Ok(round) => {
                if round.acknowledged_nodes < round.quorum && ticks > 0 {
                    assert(after.room(ticks as int));
                    raft_laws::ticking_takes_room(after, ticks as int);
                    let ticked = after.tick().0;
                    raft_laws::advances_transitive(a.cluster, after, ticked);
                    let next = asked.with_cluster(ticked).drop_stale_lease();
                    if after.tick().1 is Ok {
                        asking_goes_on(next, to, (ticks - 1) as nat);
                        let end = next.await_quorum(to, (ticks - 1) as nat).0;
                        raft_laws::advances_transitive(a.cluster, ticked, end.cluster);
                    }
                }
            },
        }
    }
}

/// A round of heartbeats keeps the leader and speaks for it.
pub proof fn rounds_keep_the_leader(c: ClusterV)
    requires
        c.wf(),
    ensures
        c.heartbeat_round().0.leader_id == c.leader_id,
        c.heartbeat_round().1 matches Ok(round) ==> round.leader_id == c.leader_id && round.quorum
            == c.quorum(),
{
    raft_laws::valid_is_bounded(c);
    raft_laws::heartbeats_keep(c, u64::MAX, (u64::MAX - 1) as u64);
    reveal(ClusterV::heartbeat_round);
}

/// What a write may be answered while it waits for its commit: a commit that a
/// quorum of the members has reached, a timeout with less, or an error.
pub open spec fn settles(index: Index, after: ApiV, response: ClientResponseV) -> bool {
    match response {
        ClientResponseV::WriteCommitted { index: committed, committed_nodes } => {
            &&& committed == index
            &&& committed_nodes == raft_model::count_reaching(
                raft_model::commits(after.cluster.nodes),
                index,
            )
            &&& committed_nodes >= after.cluster.quorum()
        },
        ClientResponseV::TimedOut { operation, index: pending, observed_nodes } => {
            &&& operation == TimeoutOperation::Proposal
            &&& pending == Some(index)
            &&& observed_nodes < after.cluster.quorum()
        },
        ClientResponseV::InternalError { .. } => true,
        _ => false,
    }
}

/// Waiting for a commit ends in one of the ways that a write may end. A commit
/// is noted as a version, and nothing else of the versions changes.
pub proof fn awaiting_settles(
    a: ApiV,
    index: Index,
    ticks: nat,
    observed: usize,
)
    requires
        a.cluster.wf(),
        a.cluster.room(ticks as int),
        observed < a.cluster.quorum(),
    ensures
        ({
            let (after, response) = a.await_commit(index, ticks, observed);
            &&& settles(index, after, response)
            &&& after == if response is WriteCommitted {
                a.with_cluster(after.cluster).note_commits(index)
            } else {
                a.with_cluster(after.cluster)
            }
        }),
    decreases ticks,
{
    if ticks > 0 {
        raft_laws::ticking_takes_room(a.cluster, ticks as int);
        let (after, result) = a.cluster.tick();
        let ticked = a.with_cluster(after);
        let count = raft_model::count_reaching(raft_model::commits(after.nodes), index);
        raft_model::counts_are_bounded(raft_model::commits(after.nodes), index);
        assert(count as usize == count);
        if result is Ok && count < after.quorum() {
            awaiting_settles(ticked, index, (ticks - 1) as nat, count as usize);
        }
    }
}

/// What a write does beside the cluster: what is committed is noted as versions
/// and nothing else of the versions changes; only a lease that has run out is
/// dropped.
pub open spec fn notes(a: ApiV, after: ApiV, response: ClientResponseV) -> bool {
    let fresh = a.drop_stale_lease().with_cluster(after.cluster);
    after == match response {
        ClientResponseV::WriteCommitted { index, .. } => fresh.note_commits(index),
        _ => fresh,
    }
}

/// A write to another node than the leader is redirected to the leader's
/// address, one to a leader with too much pending is refused with the number of
/// pending entries and the limit, and in both cases the cluster stays as it is.
/// Every other write ends in a commit on a quorum, a timeout, or an error.
pub proof fn writes_settle(a: ApiV, to: NodeId, command: CommandV, timeout: Option<u64>)
    requires
        a.cluster.wf(),
        a.room_to_write(to, command, timeout),
    ensures
        ({
            let (after, response) = a.write(to, command, timeout);
            &&& notes(a, after, response)
            &&& if to != a.cluster.leader_id {
                &&& response == a.redirect()
                &&& after.cluster == a.cluster
            } else if a.pending() >= a.config.max_pending_entries {
                &&& response == (ClientResponseV::Overloaded {
                    pending_entries: a.pending(),
                    limit: a.config.max_pending_entries,
                })
                &&& after.cluster == a.cluster
            } else {
                let index = (a.cluster.nodes[a.cluster.leader_at()].log.last_index() + 1) as u64;
                settles(index, after, response)
            }
        }),
{
    reveal(ApiV::write);
    let fresh = a.drop_stale_lease();
    if to == a.cluster.leader_id && a.pending() < a.config.max_pending_entries {
        raft_laws::proposing_takes_room(a.cluster, command, 1);
        let (after, result) = a.cluster.propose(command);
        let index = (a.cluster.nodes[a.cluster.leader_at()].log.last_index() + 1) as u64;
        if let Ok(outcome) = result {
            assert(outcome.index == index && outcome.committed_nodes
                == raft_model::count_reaching(raft_model::commits(after.nodes), index)) by {
                reveal(ClusterV::propose);
                raft_model::counts_are_bounded(raft_model::commits(after.nodes), index);
            }
            let proposed = fresh.with_cluster(after);
            if outcome.committed_nodes < after.quorum() {
                awaiting_settles(
                    proposed,
                    index,
                    a.write_ticks(timeout) as nat,
                    outcome.committed_nodes,
                );
            }
        }
    }
}

/// A row is selected exactly when it is there and meets the predicate, where
/// there is one.
pub proof fn selected_rows_meet_the_predicate(
    rows: Seq<(Seq<char>, Seq<char>)>,
    predicate: Option<PredicateV>,
    row: (Seq<char>, Seq<char>),
)
    ensures
        api_model::selected(rows, predicate).contains(row) <==> rows.contains(row) && (
        predicate matches Some(p) ==> sql_plan::meets(row.0, row.1, p)),
    decreases rows.len(),
{
    if rows.len() > 0 {
        let rest = rows.drop_last();
        let last = rows.last();
        let before = api_model::selected(rest, predicate);
        let after = api_model::selected(rows, predicate);
        selected_rows_meet_the_predicate(rest, predicate, row);
        if rest.contains(row) {
            let k = choose|k: int| 0 <= k < rest.len() && rest[k] == row;
            assert(rows[k] == row);
        }
        if rows.contains(row) && row != last {
            let k = choose|k: int| 0 <= k < rows.len() && rows[k] == row;
            assert(rest[k] == row);
        }
        assert(rows[rows.len() - 1] == last);
        if after == before.push(last) {
            assert(after[before.len() as int] == last);
            if before.contains(row) {
                let k = choose|k: int| 0 <= k < before.len() && before[k] == row;
                assert(after[k] == row);
            }
            if after.contains(row) && row != last {
                let k = choose|k: int| 0 <= k < after.len() && after[k] == row;
                assert(before[k] == row);
            }
        }
    }
}

/// Writes of rows keep what every operation keeps, and end with all of them
/// committed or with what the first other write was answered.
pub proof fn writing_rows_goes_on(
    a: ApiV,
    to: NodeId,
    rows: Seq<(Seq<char>, Seq<char>)>,
    i: nat,
    value: Option<Seq<char>>,
    timeout: Option<u64>,
    last_index: Option<Index>,
    committed: usize,
)
    requires
        a.cluster.wf(),
        a.room_to_write_rows(to, rows, i, value, timeout),
        i <= rows.len() <= usize::MAX,
    ensures
        ({
            let (after, response) = a.write_rows(
                to,
                rows,
                i,
                value,
                timeout,
                last_index,
                committed,
            );
            &&& goes_on(a, after)
            &&& response matches ClientResponseV::SqlWriteResult { affected_rows, .. }
                ==> affected_rows == rows.len()
        }),
    decreases rows.len() - i,
{
    raft_laws::valid_is_bounded(a.cluster);
    if i < rows.len() {
        let command = api_model::row_command(rows[i as int].0, value);
        writes_settle(a, to, command, timeout);
        writing_goes_on(a, to, command, timeout);
        let (b, response) = a.write(to, command, timeout);
        if let ClientResponseV::WriteCommitted { index, committed_nodes } = response {
            writing_rows_goes_on(
                b,
                to,
                rows,
                i + 1,
                value,
                timeout,
                Some(index),
                committed_nodes,
            );
            let after = b.write_rows(
                to,
                rows,
                i + 1,
                value,
                timeout,
                Some(index),
                committed_nodes,
            ).0;
            raft_laws::advances_transitive(a.cluster, b.cluster, after.cluster);
        }
    }
}

/// Room for all writes of rows to wait their whole timeouts is room for them.
proof fn ample_room_for_rows(
    a: ApiV,
    to: NodeId,
    rows: Seq<(Seq<char>, Seq<char>)>,
    i: nat,
    value: Option<Seq<char>>,
    timeout: Option<u64>,
)
    requires
        a.cluster.wf(),
        i < rows.len() ==> a.room_for_writes(rows.len() - i, a.write_ticks(timeout)),
    ensures
        a.room_to_write_rows(to, rows, i, value, timeout),
    decreases rows.len() - i,
{
    if i < rows.len() {
        let command = api_model::row_command(rows[i as int].0, value);
        one_of_many_writes_goes_on(a, to, command, timeout, rows.len() - i);
        let b = a.write(to, command, timeout).0;
        ample_room_for_rows(b, to, rows, i + 1, value, timeout);
    }
}

/// Room for an UPDATE or DELETE to wait its whole timeouts is room for it; and
/// one that is refused for pending entries needs none.
proof fn ample_room_to_mutate(
    a: ApiV,
    to: NodeId,
    predicate: PredicateV,
    value: Option<Seq<char>>,
    timeout: Option<u64>,
)
    requires
        a.cluster.wf(),
        to == a.cluster.leader_id && a.pending() < a.config.max_pending_entries && a.affected(
            predicate,
        ).len() > 0 ==> a.room_for_writes(
            a.affected(predicate).len() as int,
            a.write_ticks(timeout),
        ),
    ensures
        a.room_to_mutate(to, predicate, value, timeout),
{
    let b = a.in_step_with_the_leader();
    let rows = a.affected(predicate);
    if to == a.cluster.leader_id {
        if a.pending() < a.config.max_pending_entries {
            ample_room_for_rows(b, to, rows, 0, value, timeout);
        } else if rows.len() > 0 {
            let command = api_model::row_command(rows[0].0, value);
            assert(b.write(to, command, timeout).1 is Overloaded) by {
                reveal(ApiV::write);
            }
        }
    }
}

/// Room for a request to wait its whole timeouts is room for it.
pub proof fn ample_room_suffices(a: ApiV, envelope: RequestEnvelopeV)
    requires
        a.cluster.wf(),
        a.ample_room_for(envelope),
    ensures
        a.room_for_envelope(envelope),
{
    let to = envelope.to.node_id;
    let timeout = envelope.timeout_ticks;
    if api_model::address_of(a.addresses, to) == Some(envelope.to) {
        match envelope.request {
            ClientRequestV::Write(command) => {
                if a.writes_of(to, envelope.request) > 0 {
                    one_of_many_writes_goes_on(a, to, command, timeout, 1);
                }
            },
            ClientRequestV::Read { .. } => {},
            ClientRequestV::Sql { query, .. } => {
                if let Ok(plan) = ApiV::plan_of(query) {
                    match plan {
                        KvExecutionPlanV::Select { .. } => {},
                        KvExecutionPlanV::Insert { key, value } => {
                            if a.writes_of(to, envelope.request) > 0 {
                                one_of_many_writes_goes_on(
                                    a,
                                    to,
                                    CommandV::Put { key, value },
                                    timeout,
                                    1,
                                );
                            }
                        },
                        KvExecutionPlanV::Delete { predicate } => {
                            ample_room_to_mutate(a, to, predicate, None, timeout);
                        },
                        KvExecutionPlanV::Update { value, predicate } => {
                            ample_room_to_mutate(a, to, predicate, Some(value), timeout);
                        },
                    }
                }
            },
        }
    }
}

/// A lease lasts no longer than configured, and that is shorter than the
/// shortest election timeout.
pub open spec fn lease_is_short(a: ApiV) -> bool {
    &&& a.config.read_lease_ticks < MIN_ELECTION_TIMEOUT_TICKS
    &&& a.read_lease matches Some(lease) ==> lease.expires_at_tick <= lease.issued_at_tick
        + a.config.read_lease_ticks
}

/// A lease that is used was granted by a quorum to the leader who is in office,
/// in the same term, and fewer ticks ago than any member waits before it stands
/// for election.
pub proof fn used_leases_are_recent(a: ApiV)
    requires
        lease_is_short(a),
    ensures
        lease_is_short(a.drop_stale_lease()),
        a.drop_stale_lease().read_lease matches Some(lease) ==> {
            &&& lease.leader_id == a.cluster.leader_id
            &&& lease.term == a.cluster.current_term
            &&& lease.acknowledged_nodes >= a.cluster.quorum()
            &&& lease.issued_at_tick <= a.cluster.clock_ticks < lease.issued_at_tick
                + MIN_ELECTION_TIMEOUT_TICKS
        },
{
}

/// A new interface holds no lease, and one that is short from then on.
pub proof fn opened_without_a_lease(c: ClusterV, config: TransportConfig)
    ensures
        lease_is_short(ApiV::opened(c, config)),
        ApiV::opened(c, config).read_lease is None,
{
}

proof fn asking_keeps_leases_short(a: ApiV, to: NodeId, ticks: nat)
    requires
        lease_is_short(a),
    ensures
        lease_is_short(a.await_quorum(to, ticks).0),
    decreases ticks,
{
    if to == a.cluster.leader_id {
        let (after, result) = a.cluster.heartbeat_round();
        let asked = a.with_cluster(after);
        if let Ok(round) = result {
            if round.acknowledged_nodes < round.quorum && ticks > 0 {
                if after.tick().1 is Ok {
                    let next = asked.with_cluster(after.tick().0).drop_stale_lease();
                    asking_keeps_leases_short(next, to, (ticks - 1) as nat);
                }
            }
        }
    }
}

proof fn awaiting_keeps_the_lease(
    a: ApiV,
    index: Index,
    ticks: nat,
    observed: usize,
)
    ensures
        a.await_commit(index, ticks, observed).0.read_lease == a.read_lease,
        a.await_commit(index, ticks, observed).0.config == a.config,
    decreases ticks,
{
    if ticks > 0 {
        let after = a.cluster.tick().0;
        let count = raft_model::count_reaching(raft_model::commits(after.nodes), index) as usize;
        if a.cluster.tick().1 is Ok && count < after.quorum() {
            awaiting_keeps_the_lease(
                a.with_cluster(after),
                index,
                (ticks - 1) as nat,
                count,
            );
        }
    }
}

proof fn writing_keeps_leases_short(
    a: ApiV,
    to: NodeId,
    command: CommandV,
    timeout: Option<u64>,
)
    requires
        lease_is_short(a),
    ensures
        lease_is_short(a.write(to, command, timeout).0),
{
    reveal(ApiV::write);
    let fresh = a.drop_stale_lease();
    let (after, result) = fresh.cluster.propose(command);
    if let Ok(outcome) = result {
        awaiting_keeps_the_lease(
            fresh.with_cluster(after),
            outcome.index,
            fresh.write_ticks(timeout) as nat,
            outcome.committed_nodes,
        );
    }
}

proof fn writing_rows_keeps_leases_short(
    a: ApiV,
    to: NodeId,
    rows: Seq<(Seq<char>, Seq<char>)>,
    i: nat,
    value: Option<Seq<char>>,
    timeout: Option<u64>,
    last_index: Option<Index>,
    committed: usize,
)
    requires
        lease_is_short(a),
    ensures
        lease_is_short(a.write_rows(to, rows, i, value, timeout, last_index, committed).0),
    decreases rows.len() - i,
{
    if i < rows.len() {
        let command = api_model::row_command(rows[i as int].0, value);
        writing_keeps_leases_short(a, to, command, timeout);
        let (b, response) = a.write(to, command, timeout);
        if let ClientResponseV::WriteCommitted { index, committed_nodes } = response {
            writing_rows_keeps_leases_short(
                b,
                to,
                rows,
                i + 1,
                value,
                timeout,
                Some(index),
                committed_nodes,
            );
        }
    }
}

/// Whatever is requested, leases stay shorter than any election timeout.
pub proof fn leases_stay_short(a: ApiV, envelope: RequestEnvelopeV)
    requires
        lease_is_short(a),
    ensures
        lease_is_short(a.handle(envelope).0),
{
    reveal(ApiV::ensure_lease);
    let to = envelope.to.node_id;
    let timeout = envelope.timeout_ticks;
    let fresh = a.drop_stale_lease();
    asking_keeps_leases_short(fresh, to, fresh.read_ticks(timeout) as nat);
    match envelope.request {
        ClientRequestV::Write(command) => writing_keeps_leases_short(a, to, command, timeout),
        ClientRequestV::Read { .. } => {},
        ClientRequestV::Sql { query, .. } => {
            if let Ok(plan) = ApiV::plan_of(query) {
                let ensured = a.in_step_with_the_leader();
                match plan {
                    KvExecutionPlanV::Select { .. } => {},
                    KvExecutionPlanV::Insert { key, value } => writing_keeps_leases_short(
                        a,
                        to,
                        CommandV::Put { key, value },
                        timeout,
                    ),
                    KvExecutionPlanV::Delete { predicate } => writing_rows_keeps_leases_short(
                        ensured,
                        to,
                        a.affected(predicate),
                        0,
                        None,
                        timeout,
                        None,
                        0,
                    ),
                    KvExecutionPlanV::Update { value, predicate } =>
                        writing_rows_keeps_leases_short(
                        ensured,
                        to,
                        a.affected(predicate),
                        0,
                        Some(value),
                        timeout,
                        None,
                        0,
                    ),
                }
            }
        },
    }
}

/// Whatever is requested, the cluster stays valid, no member's term or commit
/// index goes back, no vote is changed, and the addresses and the configuration
/// stay.
pub proof fn requests_go_on(a: ApiV, envelope: RequestEnvelopeV)
    requires
        a.cluster.wf(),
        a.room_for_envelope(envelope),
        forall|predicate: PredicateV| (#[trigger] a.affected(predicate)).len() <= usize::MAX,
    ensures
        goes_on(a, a.handle(envelope).0),
{
    let to = envelope.to.node_id;
    let timeout = envelope.timeout_ticks;
    raft_laws::valid_is_bounded(a.cluster);
    if api_model::address_of(a.addresses, to) == Some(envelope.to) {
        serving_goes_on(a, to, envelope.request, timeout);
    }
}

proof fn serving_goes_on(a: ApiV, to: NodeId, request: ClientRequestV, timeout: Option<u64>)
    requires
        a.cluster.wf(),
        a.room_for(to, request, timeout),
        forall|predicate: PredicateV| (#[trigger] a.affected(predicate)).len() <= usize::MAX,
    ensures
        goes_on(a, a.serve(to, request, timeout).0),
{
    match request {
        ClientRequestV::Write(command) => {
            writing_goes_on(a, to, command, timeout);
        },
        ClientRequestV::Read { consistency, .. } => {
            read_times_go_on(a, to, consistency, timeout);
        },
        ClientRequestV::Sql { query, read_consistency } => {
            if let Ok(plan) = ApiV::plan_of(query) {
                match plan {
                    KvExecutionPlanV::Select { .. } => {
                        read_times_go_on(a, to, read_consistency, timeout);
                    },
                    KvExecutionPlanV::Insert { key, value } => {
                        writing_goes_on(a, to, CommandV::Put { key, value }, timeout);
                    },
                    KvExecutionPlanV::Delete { predicate } => {
                        mutations_go_on(a, to, predicate, None, timeout);
                    },
                    KvExecutionPlanV::Update { value, predicate } => {
                        mutations_go_on(a, to, predicate, Some(value), timeout);
                    },
                }
            }
        },
    }
}

/// Finding the time of a read keeps what every operation keeps.
pub proof fn read_times_go_on(
    a: ApiV,
    to: NodeId,
    consistency: ReadConsistency,
    timeout: Option<u64>,
)
    requires
        a.cluster.wf(),
        a.room_to_read(to, consistency, timeout),
    ensures
        goes_on(a, a.read_time(to, consistency, timeout).0),
{
    reveal(ApiV::ensure_lease);
    raft_laws::valid_is_bounded(a.cluster);
    if to == a.cluster.leader_id && consistency == ReadConsistency::Linearizable {
        let fresh = a.drop_stale_lease();
        if fresh.read_lease is None {
            asking_goes_on(fresh, to, fresh.read_ticks(timeout) as nat);
        }
    }
}

/// A read that finds its time reads at the commit index of the asked member; a
/// linearizable one at the leader's.
pub proof fn reads_find_their_time(
    a: ApiV,
    to: NodeId,
    consistency: ReadConsistency,
    timeout: Option<u64>,
)
    requires
        a.cluster.wf(),
        a.room_to_read(to, consistency, timeout),
    ensures
        ({
            let (after, time) = a.read_time(to, consistency, timeout);
            time matches Ok(ts) ==> {
                &&& raft_model::has_member(after.cluster.nodes, to)
                &&& ts == after.cluster.nodes[raft_model::position(
                    after.cluster.nodes,
                    to,
                )].commit_index
                &&& consistency == ReadConsistency::Linearizable ==> to == after.cluster.leader_id
            }
        }),
{
    reveal(ApiV::ensure_lease);
    raft_laws::leader_has_place(a.cluster);
    let fresh = a.drop_stale_lease();
    if consistency == ReadConsistency::Linearizable && to == a.cluster.leader_id
        && fresh.read_lease is None {
        asking_goes_on(fresh, to, fresh.read_ticks(timeout) as nat);
        raft_laws::leader_has_place(fresh.await_quorum(to, fresh.read_ticks(timeout) as nat).0.cluster);
    }
}

proof fn mutations_go_on(
    a: ApiV,
    to: NodeId,
    predicate: PredicateV,
    value: Option<Seq<char>>,
    timeout: Option<u64>,
)
    requires
        a.cluster.wf(),
        a.affected(predicate).len() <= usize::MAX,
        a.room_to_mutate(to, predicate, value, timeout),
    ensures
        goes_on(a, a.mutate(to, predicate, value, timeout).0),
{
    raft_laws::valid_is_bounded(a.cluster);
    if to == a.cluster.leader_id {
        writing_rows_goes_on(
            a.in_step_with_the_leader(),
            to,
            a.affected(predicate),
            0,
            value,
            timeout,
            None,
            0,
        );
    }
}

/// A response answers its request: it carries the same number, goes to who
/// asked, and comes from who was asked. A request to an address that is not
/// known changes nothing.
pub proof fn responses_answer_requests(a: ApiV, envelope: RequestEnvelopeV)
    ensures
        a.handle(envelope).1.request_id == envelope.request_id,
        a.handle(envelope).1.to == envelope.from,
        a.handle(envelope).1.from.node_id == envelope.to.node_id,
        api_model::address_of(a.addresses, envelope.to.node_id) != Some(envelope.to) ==> a.handle(
            envelope,
        ).0 == a && a.handle(envelope).1.response is RouteError,
{
    found_addresses_are_the_nodes(a.addresses, envelope.to.node_id);
}

/// The address that is found for a node is that node's.
pub proof fn found_addresses_are_the_nodes(addresses: Seq<AddressV>, id: NodeId)
    ensures
        api_model::address_of(addresses, id) matches Some(address) ==> address.node_id == id,
    decreases addresses.len(),
{
    if addresses.len() > 0 && addresses[0].node_id != id {
        found_addresses_are_the_nodes(addresses.skip(1), id);
    }
}

/// Linearizable reads at another node than the leader are redirected to the
/// leader's address and change nothing.
pub proof fn followers_do_not_answer_for_the_leader(
    a: ApiV,
    to: NodeId,
    key: Seq<char>,
    timeout: Option<u64>,
)
    requires
        to != a.cluster.leader_id,
    ensures
        a.read(to, key, ReadConsistency::Linearizable, timeout) == (a, a.redirect()),
{
    reveal(ApiV::ensure_lease);
}

/// A round of heartbeats ended in this state, and a quorum acknowledged it.
pub open spec fn quorum_answered(c: ClusterV) -> bool {
    exists|before: ClusterV| #[trigger]
        before.heartbeat_round().0 == c && (before.heartbeat_round().1 matches Ok(round)
            && round.acknowledged_nodes >= round.quorum)
}

proof fn asking_ends_with_a_quorum(a: ApiV, to: NodeId, ticks: nat)
    requires
        a.await_quorum(to, ticks).1 is Ok,
    ensures
        quorum_answered(a.await_quorum(to, ticks).0.cluster),
    decreases ticks,
{
    let (after, result) = a.cluster.heartbeat_round();
    if let Ok(round) = result {
        if round.acknowledged_nodes < round.quorum {
            let next = a.with_cluster(after).with_cluster(after.tick().0).drop_stale_lease();
            asking_ends_with_a_quorum(next, to, (ticks - 1) as nat);
        }
    }
}

/// A linearizable read is answered only on evidence: a lease that a quorum has
/// granted and that still holds, or a round of heartbeats that a quorum has
/// acknowledged just now.
pub proof fn linearizable_reads_rest_on_a_quorum(
    a: ApiV,
    to: NodeId,
    key: Seq<char>,
    timeout: Option<u64>,
)
    requires
        a.read(to, key, ReadConsistency::Linearizable, timeout).1 is ReadResult,
    ensures
        to == a.cluster.leader_id,
        (a.read_lease is Some && a.lease_holds(a.read_lease->0)) || quorum_answered(
            a.read(to, key, ReadConsistency::Linearizable, timeout).0.cluster,
        ),
{
    reveal(ApiV::ensure_lease);
    let fresh = a.drop_stale_lease();
    if to != a.cluster.leader_id {
    } else if fresh.read_lease is None {
        if fresh.await_quorum(to, fresh.read_ticks(timeout) as nat).1 is Ok {
            asking_ends_with_a_quorum(fresh, to, fresh.read_ticks(timeout) as nat);
        }
        refused_reads_hold_no_result(fresh, to, fresh.read_ticks(timeout) as nat);
    }
}

/// A linearizable read that finds no time is answered with a redirect, a timeout
/// or an error.
pub proof fn linearizable_reads_are_asked_for(a: ApiV, to: NodeId, timeout: Option<u64>)
    ensures
        a.read_time(to, ReadConsistency::Linearizable, timeout).1 matches Err(response)
            ==> response !is ReadResult && response !is SqlRows,
{
    reveal(ApiV::ensure_lease);
    let fresh = a.drop_stale_lease();
    refused_reads_hold_no_result(fresh, to, fresh.read_ticks(timeout) as nat);
}

/// Asking for a quorum in vain is answered with a redirect, a timeout or an
/// error.
proof fn refused_reads_hold_no_result(a: ApiV, to: NodeId, ticks: nat)
    ensures
        a.await_quorum(to, ticks).1 matches Err(response) ==> response !is ReadResult
            && response !is SqlRows,
    decreases ticks,
{
    let (after, result) = a.cluster.heartbeat_round();
    if to == a.cluster.leader_id {
        if let Ok(round) = result {
            if round.acknowledged_nodes < round.quorum && ticks > 0 {
                let next = a.with_cluster(after).with_cluster(after.tick().0).drop_stale_lease();
                refused_reads_hold_no_result(next, to, (ticks - 1) as nat);
            }
        }
    }
}

proof fn awaiting_takes_its_ticks(
    a: ApiV,
    index: Index,
    ticks: nat,
    observed: usize,
)
    requires
        a.cluster.wf(),
        a.cluster.room(ticks as int),
    ensures
        ({
            let (after, response) = a.await_commit(index, ticks, observed);
            let waited = after.cluster.clock_ticks - a.cluster.clock_ticks;
            &&& 0 <= waited <= ticks
            &&& response is TimedOut ==> waited == ticks
        }),
    decreases ticks,
{
    if ticks > 0 {
        raft_laws::ticking_takes_room(a.cluster, ticks as int);
        let after = a.cluster.tick().0;
        let count = raft_model::count_reaching(raft_model::commits(after.nodes), index) as usize;
        if a.cluster.tick().1 is Ok && count < after.quorum() {
            awaiting_takes_its_ticks(
                a.with_cluster(after),
                index,
                (ticks - 1) as nat,
                count,
            );
        }
    }
}

proof fn asking_takes_its_ticks(a: ApiV, to: NodeId, ticks: nat)
    requires
        a.cluster.wf(),
        ticks <= u64::MAX,
        a.room_to_ask(to, ticks as u64),
    ensures
        ({
            let (after, result) = a.await_quorum(to, ticks);
            let waited = after.cluster.clock_ticks - a.cluster.clock_ticks;
            &&& 0 <= waited <= ticks
            &&& result matches Err(ClientResponseV::TimedOut { .. }) ==> waited == ticks
        }),
    decreases ticks,
{
    raft_laws::heartbeats_take_no_room(a.cluster);
    let (after, result) = a.cluster.heartbeat_round();
    if to == a.cluster.leader_id && ticks > 0 {
        if let Ok(round) = result {
            if round.acknowledged_nodes < round.quorum {
                assert(after.room(ticks as int));
                raft_laws::ticking_takes_room(after, ticks as int);
                let next = a.with_cluster(after).with_cluster(after.tick().0).drop_stale_lease();
                asking_takes_its_ticks(next, to, (ticks - 1) as nat);
            }
        }
    }
}

/// A write waits no longer than its timeout, and times out only when it has
/// waited all of it.
pub proof fn writes_wait_as_long_as_asked(
    a: ApiV,
    to: NodeId,
    command: CommandV,
    timeout: Option<u64>,
)
    requires
        a.cluster.wf(),
        a.room_to_write(to, command, timeout),
    ensures
        ({
            let (after, response) = a.write(to, command, timeout);
            let waited = after.cluster.clock_ticks - a.cluster.clock_ticks;
            &&& 0 <= waited <= a.write_ticks(timeout)
            &&& response is TimedOut ==> waited == a.write_ticks(timeout)
        }),
{
    reveal(ApiV::write);
    let ticks = a.write_ticks(timeout);
    let (after, result) = a.cluster.propose(command);
    if to == a.cluster.leader_id && a.pending() < a.config.max_pending_entries {
        raft_laws::proposing_takes_room(a.cluster, command, 1);
        if let Ok(outcome) = result {
            if outcome.committed_nodes < after.quorum() {
                awaiting_takes_its_ticks(
                    a.drop_stale_lease().with_cluster(after),
                    outcome.index,
                    ticks as nat,
                    outcome.committed_nodes,
                );
            }
        }
    }
}

/// A read waits no longer than its timeout, and times out only when it has
/// waited all of it.
pub proof fn reads_wait_as_long_as_asked(
    a: ApiV,
    to: NodeId,
    key: Seq<char>,
    consistency: ReadConsistency,
    timeout: Option<u64>,
)
    requires
        a.cluster.wf(),
        a.room_to_read(to, consistency, timeout),
    ensures
        ({
            let (after, response) = a.read(to, key, consistency, timeout);
            let waited = after.cluster.clock_ticks - a.cluster.clock_ticks;
            &&& 0 <= waited <= a.read_ticks(timeout)
            &&& response is TimedOut ==> waited == a.read_ticks(timeout)
        }),
{
    reveal(ApiV::ensure_lease);
    if to == a.cluster.leader_id && consistency == ReadConsistency::Linearizable
        && a.drop_stale_lease().read_lease is None {
        asking_takes_its_ticks(a.drop_stale_lease(), to, a.read_ticks(timeout) as nat);
    }
}

} // verus!
