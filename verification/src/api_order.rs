//! How reads relate to one another: all of them read one log, each as far as
//! the asked member has committed it.
use vstd::prelude::*;

use crate::api_laws;
use crate::api_model;
use crate::api_model::ApiV;
use crate::api_types::{ClientRequestV, ClientResponseV, ReadConsistency, RequestEnvelopeV};
use crate::api_versions;
use crate::api_versions::in_step;
use crate::raft_guarantees;
use crate::raft_guarantees::leads_to;
use crate::raft_history;
use crate::raft_history::state_at;
use crate::raft_laws;
use crate::raft_model;
use crate::raft_model::ClusterV;
use crate::raft_runs::never_back;
use crate::raft_soundness;
use crate::raft_soundness::{sound, History};
use crate::raft_steps;
use crate::sql_ast::{KvExecutionPlanV, PredicateV};
use crate::state_machine;
use crate::types::{CommandV, Index, LogEntryV, NodeId};

verus! {

/// Waiting for a commit leads on.
proof fn awaiting_leads_on(a: ApiV, index: Index, ticks: nat, observed: usize)
    requires
        a.cluster.wf(),
        a.cluster.room(ticks as int),
    ensures
        leads_to(a.cluster, a.await_commit(index, ticks, observed).0.cluster),
    decreases ticks,
{
    if ticks == 0 {
        raft_guarantees::leading_nowhere(a.cluster);
    } else {
        raft_laws::ticking_takes_room(a.cluster, ticks as int);
        assert(a.cluster.room(1));
        raft_guarantees::ticks_lead_on(a.cluster);
        let (after, result) = a.cluster.tick();
        let ticked = a.with_cluster(after);
        let count = raft_model::count_reaching(raft_model::commits(after.nodes), index) as usize;
        if result is Ok && count < after.quorum() {
            awaiting_leads_on(ticked, index, (ticks - 1) as nat, count);
            raft_guarantees::leading_twice(
                a.cluster,
                after,
                ticked.await_commit(index, (ticks - 1) as nat, count).0.cluster,
            );
        }
    }
}

/// A write leads on.
pub proof fn writes_lead_on(a: ApiV, to: NodeId, command: CommandV, timeout: Option<u64>)
    requires
        a.cluster.wf(),
        a.room_to_write(to, command, timeout),
    ensures
        leads_to(a.cluster, a.write(to, command, timeout).0.cluster),
{
    reveal(ApiV::write);
    let fresh = a.drop_stale_lease();
    if to == a.cluster.leader_id && a.pending() < a.config.max_pending_entries {
        raft_laws::proposing_takes_room(a.cluster, command, 1);
        raft_guarantees::proposals_lead_on(a.cluster, command);
        let (after, result) = a.cluster.propose(command);
        if let Ok(outcome) = result {
            if outcome.committed_nodes < after.quorum() {
                let proposed = fresh.with_cluster(after);
                let ticks = a.write_ticks(timeout) as nat;
                awaiting_leads_on(proposed, outcome.index, ticks, outcome.committed_nodes);
                raft_guarantees::leading_twice(
                    a.cluster,
                    after,
                    proposed.await_commit(
                        outcome.index,
                        ticks,
                        outcome.committed_nodes,
                    ).0.cluster,
                );
            }
        }
    } else {
        raft_guarantees::leading_nowhere(a.cluster);
    }
}

/// Asking for a quorum leads on.
proof fn asking_leads_on(a: ApiV, to: NodeId, ticks: nat)
    requires
        a.cluster.wf(),
        ticks <= u64::MAX,
        a.room_to_ask(to, ticks as u64),
    ensures
        leads_to(a.cluster, a.await_quorum(to, ticks).0.cluster),
    decreases ticks,
{
    if to == a.cluster.leader_id {
        raft_guarantees::heartbeats_lead_on(a.cluster);
        raft_laws::heartbeats_take_no_room(a.cluster);
        let (after, result) = a.cluster.heartbeat_round();
        let asked = a.with_cluster(after);
        if let Ok(round) = result {
            if round.acknowledged_nodes < round.quorum && ticks > 0 {
                assert(after.room(ticks as int));
                assert(after.room(1));
                raft_laws::ticking_takes_room(after, ticks as int);
                raft_guarantees::ticks_lead_on(after);
                let ticked = after.tick().0;
                raft_guarantees::leading_twice(a.cluster, after, ticked);
                let next = asked.with_cluster(ticked).drop_stale_lease();
                if after.tick().1 is Ok {
                    asking_leads_on(next, to, (ticks - 1) as nat);
                    raft_guarantees::leading_twice(
                        a.cluster,
                        ticked,
                        next.await_quorum(to, (ticks - 1) as nat).0.cluster,
                    );
                }
            }
        }
    } else {
        raft_guarantees::leading_nowhere(a.cluster);
    }
}

/// Reads and queries lead on.
pub proof fn reads_lead_on(
    a: ApiV,
    to: NodeId,
    consistency: ReadConsistency,
    timeout: Option<u64>,
)
    requires
        a.cluster.wf(),
        a.room_to_read(to, consistency, timeout),
    ensures
        leads_to(a.cluster, a.read_time(to, consistency, timeout).0.cluster),
{
    reveal(ApiV::ensure_lease);
    let fresh = a.drop_stale_lease();
    if consistency == ReadConsistency::Linearizable && to == a.cluster.leader_id
        && fresh.read_lease is None {
        asking_leads_on(fresh, to, fresh.read_ticks(timeout) as nat);
    } else {
        raft_guarantees::leading_nowhere(a.cluster);
    }
}

proof fn writing_rows_leads_on(
    a: ApiV,
    to: NodeId,
    rows: Seq<(Seq<char>, Seq<char>)>,
    i: nat,
    value: Option<Seq<char>>,
    timeout: Option<u64>,
    last_index: Option<Index>,
    committed: usize,
)
    requires
        a.cluster.wf(),
        a.room_to_write_rows(to, rows, i, value, timeout),
    ensures
        leads_to(
            a.cluster,
            a.write_rows(to, rows, i, value, timeout, last_index, committed).0.cluster,
        ),
    decreases rows.len() - i,
{
    if i < rows.len() {
        let command = api_model::row_command(rows[i as int].0, value);
        writes_lead_on(a, to, command, timeout);
        api_laws::writing_goes_on(a, to, command, timeout);
        let (b, response) = a.write(to, command, timeout);
        if let ClientResponseV::WriteCommitted { index, committed_nodes } = response {
            writing_rows_leads_on(
                b,
                to,
                rows,
                i + 1,
                value,
                timeout,
                Some(index),
                committed_nodes,
            );
            raft_guarantees::leading_twice(
                a.cluster,
                b.cluster,
                b.write_rows(
                    to,
                    rows,
                    i + 1,
                    value,
                    timeout,
                    Some(index),
                    committed_nodes,
                ).0.cluster,
            );
        }
    } else {
        raft_guarantees::leading_nowhere(a.cluster);
    }
}

proof fn mutations_lead_on(
    a: ApiV,
    to: NodeId,
    predicate: PredicateV,
    value: Option<Seq<char>>,
    timeout: Option<u64>,
)
    requires
        a.cluster.wf(),
        a.room_to_mutate(to, predicate, value, timeout),
    ensures
        leads_to(a.cluster, a.mutate(to, predicate, value, timeout).0.cluster),
{
    if to == a.cluster.leader_id {
        writing_rows_leads_on(
            a.in_step_with_the_leader(),
            to,
            a.affected(predicate),
            0,
            value,
            timeout,
            None,
            0,
        );
    } else {
        raft_guarantees::leading_nowhere(a.cluster);
    }
}

/// Whatever is requested, what was committed stays as it was.
pub proof fn requests_lead_on(a: ApiV, envelope: RequestEnvelopeV)
    requires
        a.cluster.wf(),
        a.room_for_envelope(envelope),
    ensures
        leads_to(a.cluster, a.handle(envelope).0.cluster),
{
    let to = envelope.to.node_id;
    let timeout = envelope.timeout_ticks;
    raft_guarantees::leading_nowhere(a.cluster);
    if api_model::address_of(a.addresses, to) == Some(envelope.to) {
        match envelope.request {
            ClientRequestV::Write(command) => {
                writes_lead_on(a, to, command, timeout);
            },
            ClientRequestV::Read { consistency, .. } => {
                reads_lead_on(a, to, consistency, timeout);
            },
            ClientRequestV::Sql { query, read_consistency } => {
                if let Ok(plan) = ApiV::plan_of(query) {
                    match plan {
                        KvExecutionPlanV::Select { .. } => {
                            reads_lead_on(a, to, read_consistency, timeout);
                        },
                        KvExecutionPlanV::Insert { key, value } => {
                            writes_lead_on(a, to, CommandV::Put { key, value }, timeout);
                        },
                        KvExecutionPlanV::Delete { predicate } => {
                            mutations_lead_on(a, to, predicate, None, timeout);
                        },
                        KvExecutionPlanV::Update { value, predicate } => {
                            mutations_lead_on(a, to, predicate, Some(value), timeout);
                        },
                    }
                }
            },
        }
    }
}

/// How far a member has committed.
pub open spec fn reached(c: ClusterV, id: NodeId) -> Index {
    c.nodes[raft_model::position(c.nodes, id)].commit_index
}

/// What a read at a member came to, where it was answered: the value is what
/// the log has built for the key through what that member has committed.
pub open spec fn reads_from(
    whole: Seq<LogEntryV>,
    to: NodeId,
    key: Seq<char>,
    outcome: (ApiV, ClientResponseV),
) -> bool {
    outcome.1 matches ClientResponseV::ReadResult { value, .. } ==> {
        let through = reached(outcome.0.cluster, to);
        &&& through <= whole.len()
        &&& value == state_machine::lookup(state_at(whole, through as int), key)
    }
}

/// What a read at a member came to, where it was answered: the value is what
/// that member has committed.
pub open spec fn returns_the_state(
    to: NodeId,
    key: Seq<char>,
    outcome: (ApiV, ClientResponseV),
) -> bool {
    let nodes = outcome.0.cluster.nodes;
    outcome.1 matches ClientResponseV::ReadResult { value, .. } ==> {
        &&& raft_model::has_member(nodes, to)
        &&& value == state_machine::lookup(nodes[raft_model::position(nodes, to)].state, key)
    }
}

/// A read that is answered returns what the asked member has committed, and no
/// read goes back behind anything.
pub proof fn answered_reads_return_the_member_state(
    a: ApiV,
    to: NodeId,
    key: Seq<char>,
    consistency: ReadConsistency,
    timeout: Option<u64>,
)
    requires
        in_step(a),
        a.room_to_read(to, consistency, timeout),
    ensures
        ({
            let outcome = a.read(to, key, consistency, timeout);
            &&& returns_the_state(to, key, outcome)
            &&& sound(outcome.0.cluster)
            &&& outcome.0.cluster.wf()
            &&& leads_to(a.cluster, outcome.0.cluster)
            &&& raft_laws::advances(a.cluster, outcome.0.cluster)
        }),
{
    api_versions::reading_stays_in_step(a, to, consistency, timeout);
    api_versions::cluster_is_valid(a);
    api_laws::reads_find_their_time(a, to, consistency, timeout);
    api_laws::linearizable_reads_are_asked_for(a, to, timeout);
    api_laws::read_times_go_on(a, to, consistency, timeout);
    reads_lead_on(a, to, consistency, timeout);
    let (after, time) = a.read_time(to, consistency, timeout);
    api_versions::cluster_is_valid(after);
    if let Ok(ts) = time {
        api_versions::prepared_versions_show(after, to);
        let node = after.cluster.nodes[raft_model::position(after.cluster.nodes, to)];
        assert(after.versions_for(to).mvcc.read(key, ts) == state_machine::lookup(node.state, key));
        assert(a.read(to, key, consistency, timeout).0 == after.versions_for(to));
    }
}

/// One log stands behind the states of all members, before and after whatever
/// calls: each is what the log has built through what the member has committed.
pub proof fn one_log_stands_behind(before: ClusterV, after: ClusterV) -> (whole: Seq<LogEntryV>)
    requires
        sound(before),
        leads_to(before, after),
    ensures
        whole.len() == after.nodes[after.leader_at()].log.last_index(),
        forall|i: int|
            0 <= i < before.nodes.len() ==> (#[trigger] before.nodes[i]).commit_index
                <= whole.len() && before.nodes[i].state == state_at(
                whole,
                before.nodes[i].commit_index as int,
            ),
        forall|j: int|
            0 <= j < after.nodes.len() ==> (#[trigger] after.nodes[j]).commit_index <= whole.len()
                && after.nodes[j].state == state_at(whole, after.nodes[j].commit_index as int),
{
    let l = before.leader_at();
    let m = after.leader_at();
    let h = choose|h: History| #[trigger] h.explains(before, l);
    let g = choose|g: History| #[trigger]
        g.explains(after, m) && raft_steps::succeeds(h, l, g, m);
    let whole = g.logs[m];
    raft_soundness::explained_place(after, g, m);
    raft_soundness::explained_member(after, g, m, m);
    raft_history::rest_shows(after.nodes[m].log, whole);
    assert forall|i: int| 0 <= i < before.nodes.len() implies (
    #[trigger] before.nodes[i]).commit_index <= whole.len() && before.nodes[i].state == state_at(
        whole,
        before.nodes[i].commit_index as int,
    ) by {
        raft_soundness::explained_member(before, h, l, i);
        raft_history::agreeing_reaches_back(
            h.logs[l],
            whole,
            h.anchor,
            before.nodes[i].commit_index as int,
        );
    }
    assert forall|j: int| 0 <= j < after.nodes.len() implies (
    #[trigger] after.nodes[j]).commit_index <= whole.len() && after.nodes[j].state == state_at(
        whole,
        after.nodes[j].commit_index as int,
    ) by {
        raft_soundness::explained_member(after, g, m, j);
    }
    whole
}

/// A member that is asked again has committed no less.
proof fn members_are_asked_again(c: ClusterV, b: ClusterV, d: ClusterV, id: NodeId)
    requires
        d.wf(),
        raft_model::has_member(c.nodes, id),
        never_back(c, b),
        raft_laws::advances(b, d),
    ensures
        reached(c, id) <= reached(d, id),
{
    let i = raft_model::position(c.nodes, id);
    assert(0 <= i < c.nodes.len() && c.nodes[i].id == id);
    assert(b.nodes[i].id == c.nodes[i].id);
    assert(d.nodes[i].id == b.nodes[i].id);
    raft_laws::position_is(d.nodes, id, i);
}

/// Values that are what members have committed are what the log behind them has
/// built.
proof fn states_are_read_from(
    whole: Seq<LogEntryV>,
    to: NodeId,
    key: Seq<char>,
    outcome: (ApiV, ClientResponseV),
)
    requires
        returns_the_state(to, key, outcome),
        forall|i: int|
            0 <= i < outcome.0.cluster.nodes.len() ==> (
            #[trigger] outcome.0.cluster.nodes[i]).commit_index <= whole.len()
                && outcome.0.cluster.nodes[i].state == state_at(
                whole,
                outcome.0.cluster.nodes[i].commit_index as int,
            ),
    ensures
        reads_from(whole, to, key, outcome),
        outcome.1 is ReadResult ==> reached(outcome.0.cluster, to) <= whole.len(),
{
    let nodes = outcome.0.cluster.nodes;
    let i = raft_model::position(nodes, to);
    if outcome.1 is ReadResult {
        assert(0 <= i < nodes.len());
        assert(nodes[i].commit_index <= whole.len());
    }
}

/// The later of two reads asks the same member, and nothing took that back in
/// between, or it asks a leader that has nothing pending.
pub open spec fn goes_no_further_back(
    first: ApiV,
    between: ApiV,
    second: ApiV,
    to: NodeId,
    other: NodeId,
) -> bool {
    ||| to == other && never_back(first.cluster, between.cluster)
    ||| other == second.cluster.leader_id && second.pending() == 0
}

/// Where the later of two reads asks the same member, or a leader that has
/// nothing pending, that member has committed no less.
proof fn later_members_have_committed_no_less(
    whole: Seq<LogEntryV>,
    first: ApiV,
    between: ApiV,
    second: ApiV,
    to: NodeId,
    other: NodeId,
)
    requires
        second.cluster.wf(),
        raft_model::has_member(first.cluster.nodes, to),
        raft_laws::advances(between.cluster, second.cluster),
        goes_no_further_back(first, between, second, to, other),
        reached(first.cluster, to) <= whole.len(),
        whole.len() == second.cluster.nodes[second.cluster.leader_at()].log.last_index(),
    ensures
        reached(first.cluster, to) <= reached(second.cluster, other),
{
    raft_laws::leader_has_place(second.cluster);
    if to == other && never_back(first.cluster, between.cluster) {
        members_are_asked_again(first.cluster, between.cluster, second.cluster, to);
    }
}

proof fn outcomes_read_one_log(
    first: (ApiV, ClientResponseV),
    between: ApiV,
    second: (ApiV, ClientResponseV),
    to: NodeId,
    key: Seq<char>,
    other: NodeId,
) -> (whole: Seq<LogEntryV>)
    requires
        sound(first.0.cluster),
        leads_to(first.0.cluster, between.cluster),
        leads_to(between.cluster, second.0.cluster),
        returns_the_state(to, key, first),
        returns_the_state(other, key, second),
    ensures
        reads_from(whole, to, key, first),
        reads_from(whole, other, key, second),
        first.1 is ReadResult ==> reached(first.0.cluster, to) <= whole.len(),
        whole.len() == second.0.cluster.nodes[second.0.cluster.leader_at()].log.last_index(),
{
    raft_guarantees::leading_twice(first.0.cluster, between.cluster, second.0.cluster);
    let whole = one_log_stands_behind(first.0.cluster, second.0.cluster);
    states_are_read_from(whole, to, key, first);
    states_are_read_from(whole, other, key, second);
    whole
}

/// One log stands behind all reads, whoever is asked, with whatever consistency,
/// and whatever happens in between: of two reads one after the other, each
/// returns what the same log has built through what the asked member has
/// committed.
///
/// The later read does not go back to less of that log where it asks the same
/// member, or a leader that has nothing pending. A leader that comes into office
/// with entries pending may have committed less of it than the leader before.
pub proof fn reads_read_one_log(
    a: ApiV,
    to: NodeId,
    key: Seq<char>,
    consistency: ReadConsistency,
    timeout: Option<u64>,
    b: ApiV,
    other: NodeId,
    later: ReadConsistency,
    wait: Option<u64>,
) -> (whole: Seq<LogEntryV>)
    requires
        in_step(a),
        a.room_to_read(to, consistency, timeout),
        in_step(b),
        b.room_to_read(other, later, wait),
        leads_to(a.read(to, key, consistency, timeout).0.cluster, b.cluster),
    ensures
        ({
            let first = a.read(to, key, consistency, timeout);
            let second = b.read(other, key, later, wait);
            &&& reads_from(whole, to, key, first)
            &&& reads_from(whole, other, key, second)
            &&& first.1 is ReadResult && second.1 is ReadResult && goes_no_further_back(
                first.0,
                b,
                second.0,
                to,
                other,
            ) ==> reached(first.0.cluster, to) <= reached(second.0.cluster, other)
        }),
{
    let first = a.read(to, key, consistency, timeout);
    let second = b.read(other, key, later, wait);
    answered_reads_return_the_member_state(a, to, key, consistency, timeout);
    answered_reads_return_the_member_state(b, other, key, later, wait);
    let whole = outcomes_read_one_log(first, b, second, to, key, other);
    if first.1 is ReadResult && goes_no_further_back(first.0, b, second.0, to, other) {
        later_members_have_committed_no_less(whole, first.0, b, second.0, to, other);
    }
    whole
}

} // verus!
