//! What the client interface answers, and when.
use vstd::prelude::*;

use crate::api_laws;
use crate::api_model;
use crate::api_model::{ApiV, ReadLease};
use crate::api_types;
use crate::api_types::{
    AddressV, ClientRequestV, ClientResponseV, ReadConsistency, RequestEnvelopeV,
    TimeoutOperation, TransportConfig,
};
use crate::raft_calls;
use crate::raft_clock;
use crate::raft_laws;
use crate::raft_model;
use crate::raft_model::{ClusterV, HeartbeatRoundOutcome};
use crate::raft_progress;
use crate::raft_soundness;
use crate::raft_votes::end_of;
use crate::sql_ast::{ColumnName, PredicateV, SqlStatementV};
use crate::sql_parser;
use crate::sql_plan;
use crate::text;
use crate::types::{CommandV, Index, NodeId};

verus! {

/// The first address in a list that names a node is the one that is found for
/// it, and none where no address does.
pub proof fn the_first_address_is_found(addresses: Seq<AddressV>, id: NodeId)
    ensures
        forall|i: int|
            0 <= i < addresses.len() && (#[trigger] addresses[i]).node_id == id && (forall|j: int|
                0 <= j < i ==> (#[trigger] addresses[j]).node_id != id) ==> api_model::address_of(
                addresses,
                id,
            ) == Some(addresses[i]),
        (forall|i: int| 0 <= i < addresses.len() ==> (#[trigger] addresses[i]).node_id != id)
            ==> api_model::address_of(addresses, id) is None,
    decreases addresses.len(),
{
    if addresses.len() > 0 && addresses[0].node_id != id {
        let rest = addresses.skip(1);
        the_first_address_is_found(rest, id);
        assert forall|i: int|
            0 <= i < addresses.len() && (#[trigger] addresses[i]).node_id == id && (forall|j: int|
                0 <= j < i ==> (#[trigger] addresses[j]).node_id
                    != id) implies api_model::address_of(addresses, id) == Some(addresses[i]) by {
            assert(rest[i - 1] == addresses[i]);
            assert forall|j: int| 0 <= j < i - 1 implies (#[trigger] rest[j]).node_id != id by {
                assert(rest[j] == addresses[j + 1]);
            }
        }
        if forall|i: int| 0 <= i < addresses.len() ==> (#[trigger] addresses[i]).node_id != id {
            assert forall|i: int| 0 <= i < rest.len() implies (#[trigger] rest[i]).node_id
                != id by {
                assert(rest[i] == addresses[i + 1]);
            }
        }
    }
}

/// A new interface knows every member at `node-<id>.anvildb.internal`, holds no
/// lease, has the versions of what the leader has committed, and keeps its
/// configuration but for leases of more than five ticks, which it shortens to
/// five.
pub proof fn new_interfaces_know_the_members(c: ClusterV, config: TransportConfig)
    requires
        c.wf(),
    ensures
        ({
            let a = ApiV::opened(c, config);
            let leader = c.nodes[c.leader_at()];
            &&& a.cluster == c
            &&& a.addresses.len() == c.nodes.len()
            &&& forall|i: int|
                0 <= i < c.nodes.len() ==> (#[trigger] a.addresses[i]).node_id == c.nodes[i].id
                    && a.addresses[i].endpoint == "node-"@ + text::decimal(c.nodes[i].id as nat)
                    + ".anvildb.internal"@
            &&& forall|i: int|
                0 <= i < c.nodes.len() ==> api_model::address_of(
                    a.addresses,
                    (#[trigger] c.nodes[i]).id,
                ) == Some(a.addresses[i])
            &&& a.read_lease is None
            &&& a.config.proposal_timeout_ticks == config.proposal_timeout_ticks
            &&& a.config.read_timeout_ticks == config.read_timeout_ticks
            &&& a.config.max_pending_entries == config.max_pending_entries
            &&& a.config.read_lease_ticks == if config.read_lease_ticks > 5 {
                5
            } else {
                config.read_lease_ticks
            }
            &&& a.mvcc_first_index == leader.commit_index
            &&& a.mvcc_last_applied_index == leader.commit_index
        }),
{
    let a = ApiV::opened(c, config);
    assert forall|i: int| 0 <= i < c.nodes.len() implies api_model::address_of(
        a.addresses,
        (#[trigger] c.nodes[i]).id,
    ) == Some(a.addresses[i]) by {
        the_first_address_is_found(a.addresses, c.nodes[i].id);
        assert forall|j: int| 0 <= j < i implies (#[trigger] a.addresses[j]).node_id
            != c.nodes[i].id by {
            assert(c.nodes[j].id < c.nodes[i].id);
        }
        assert(a.addresses[i].node_id == c.nodes[i].id);
    }
}

/// Unless configured otherwise, writes wait for 8 ticks and reads for 4, a lease
/// lasts for 3, and 64 entries may be pending.
pub proof fn defaults_are_documented()
    ensures
        api_types::default_config() == (TransportConfig {
            proposal_timeout_ticks: 8,
            read_timeout_ticks: 4,
            read_lease_ticks: 3,
            max_pending_entries: 64,
        }),
{
}

/// A round that a quorum has acknowledged gives its leader a lease from now on,
/// for as many ticks as configured and at most to the end of the clock. No lease
/// is given where leases are configured away or no quorum has acknowledged; and
/// the lease before it is gone in any case. Nothing else changes.
pub proof fn rounds_give_leases(a: ApiV, round: HeartbeatRoundOutcome)
    ensures
        ({
            let after = a.record_lease(round);
            let now = a.cluster.clock_ticks;
            &&& after == (ApiV { read_lease: after.read_lease, ..a })
            &&& after.read_lease is Some <==> a.config.read_lease_ticks > 0
                && round.acknowledged_nodes >= round.quorum
            &&& after.read_lease matches Some(lease) ==> {
                &&& lease.leader_id == round.leader_id
                &&& lease.term == round.term
                &&& lease.issued_at_tick == now
                &&& lease.acknowledged_nodes == round.acknowledged_nodes
                &&& now + a.config.read_lease_ticks <= u64::MAX ==> lease.expires_at_tick == now
                    + a.config.read_lease_ticks
                &&& now + a.config.read_lease_ticks > u64::MAX ==> lease.expires_at_tick
                    == u64::MAX
            }
        }),
{
}

/// A lease is kept exactly while the same leader is in office in the same term,
/// a majority of all members has granted it, and it has not expired; the tick at
/// which it expires still counts. Dropping one changes nothing else.
pub proof fn leases_hold_until_they_expire(a: ApiV, lease: ReadLease)
    requires
        a.cluster.wf(),
        a.read_lease == Some(lease),
    ensures
        ({
            let holds = lease.leader_id == a.cluster.leader_id && lease.term
                == a.cluster.current_term && 2 * lease.acknowledged_nodes > a.cluster.nodes.len()
                && lease.issued_at_tick <= a.cluster.clock_ticks && a.cluster.clock_ticks
                <= lease.expires_at_tick;
            a.drop_stale_lease() == if holds {
                a
            } else {
                ApiV { read_lease: None, ..a }
            }
        }),
{
}

/// The leader's pending entries are those of its log behind its commit index.
pub proof fn pending_entries_are_those_not_committed(a: ApiV)
    requires
        a.cluster.wf(),
    ensures
        ({
            let leader = a.cluster.nodes[a.cluster.leader_at()];
            let last = end_of(leader.log).1;
            a.pending() == if last > leader.commit_index {
                last - leader.commit_index
            } else {
                0int
            }
        }),
{
    raft_laws::leader_has_place(a.cluster);
    assert(a.cluster.member_ok(a.cluster.leader_at()));
}

/// The answer to a request that only the leader can serve, asked of another
/// node: the leader's address, as it is known or else as it is by default.
pub open spec fn sends_to_the_leader(a: ApiV, response: ClientResponseV) -> bool {
    response matches ClientResponseV::Redirect { leader } && {
        &&& leader.node_id == a.cluster.leader_id
        &&& forall|i: int|
            0 <= i < a.addresses.len() && (#[trigger] a.addresses[i]).node_id == leader.node_id && (
            forall|j: int|
                0 <= j < i ==> (#[trigger] a.addresses[j]).node_id != leader.node_id) ==> leader
                == a.addresses[i]
        &&& (forall|i: int|
            0 <= i < a.addresses.len() ==> (#[trigger] a.addresses[i]).node_id != leader.node_id)
            ==> leader.endpoint == "node-"@ + text::decimal(leader.node_id as nat)
            + ".anvildb.internal"@
    }
}

/// Redirects go to the leader.
pub proof fn redirects_go_to_the_leader(a: ApiV)
    ensures
        sends_to_the_leader(a, a.redirect()),
{
    the_first_address_is_found(a.addresses, a.cluster.leader_id);
    api_laws::found_addresses_are_the_nodes(a.addresses, a.cluster.leader_id);
}

/// A write is taken by the leader alone: another node sends to the leader, and
/// nothing changes but a lease that has run out. The leader refuses it where as
/// many entries are pending as may be, and says how many are and how many may
/// be. Otherwise the write gets the index behind the leader's last, and is
/// answered as committed where a majority has committed that index, or with a
/// timeout or the error that stopped it.
pub proof fn writes_are_for_the_leader(
    a: ApiV,
    to: NodeId,
    command: CommandV,
    timeout: Option<u64>,
)
    requires
        a.cluster.wf(),
        a.room_to_write(to, command, timeout),
    ensures
        ({
            let (after, response) = a.write(to, command, timeout);
            let leader = a.cluster.nodes[a.cluster.leader_at()];
            let last = end_of(leader.log).1;
            let full = last >= leader.commit_index + a.config.max_pending_entries
                || a.config.max_pending_entries == 0;
            if to != a.cluster.leader_id {
                &&& sends_to_the_leader(a, response)
                &&& after == a || after == (ApiV { read_lease: None, ..a })
            } else if full {
                &&& response matches ClientResponseV::Overloaded { pending_entries, limit }
                    && pending_entries == a.pending() && limit == a.config.max_pending_entries
                &&& after == a || after == (ApiV { read_lease: None, ..a })
            } else {
                match response {
                    ClientResponseV::WriteCommitted { index, committed_nodes } => {
                        &&& index == last + 1
                        &&& 2 * committed_nodes > a.cluster.nodes.len()
                        &&& committed_nodes == raft_model::count_reaching(
                            raft_model::commits(after.cluster.nodes),
                            index,
                        )
                    },
                    ClientResponseV::TimedOut { operation, index, observed_nodes } => {
                        &&& operation == TimeoutOperation::Proposal
                        &&& index == Some((last + 1) as u64)
                        &&& 2 * observed_nodes <= a.cluster.nodes.len()
                    },
                    ClientResponseV::InternalError { .. } => true,
                    _ => false,
                }
            }
        }),
{
    api_laws::writes_settle(a, to, command, timeout);
    api_laws::writing_goes_on(a, to, command, timeout);
    redirects_go_to_the_leader(a);
    pending_entries_are_those_not_committed(a);
    raft_laws::leader_has_place(a.cluster);
    assert(a.cluster.member_ok(a.cluster.leader_at()));
}

/// A write that is not committed waits for the ticks that the request gives, or
/// for the configured ones where it gives none, and no longer.
pub proof fn writes_wait_for_their_timeout(
    a: ApiV,
    to: NodeId,
    command: CommandV,
    timeout: Option<u64>,
)
    requires
        a.cluster.wf(),
        a.room_to_write(to, command, timeout),
    ensures
        ({
            let (after, response) = a.write(to, command, timeout);
            let waited = after.cluster.clock_ticks - a.cluster.clock_ticks;
            let asked = if timeout is Some {
                timeout->0
            } else {
                a.config.proposal_timeout_ticks
            };
            0 <= waited <= asked && (response is TimedOut ==> waited == asked)
        }),
{
    api_laws::writes_wait_as_long_as_asked(a, to, command, timeout);
}

/// So does a read, for the configured ticks of reads.
pub proof fn reads_wait_for_their_timeout(
    a: ApiV,
    to: NodeId,
    key: Seq<char>,
    consistency: ReadConsistency,
    timeout: Option<u64>,
)
    requires
        a.cluster.wf(),
        a.room_to_read(to, consistency, timeout),
    ensures
        ({
            let (after, response) = a.read(to, key, consistency, timeout);
            let waited = after.cluster.clock_ticks - a.cluster.clock_ticks;
            let asked = if timeout is Some {
                timeout->0
            } else {
                a.config.read_timeout_ticks
            };
            0 <= waited <= asked && (response is TimedOut ==> waited == asked)
        }),
{
    api_laws::reads_wait_as_long_as_asked(a, to, key, consistency, timeout);
}

/// A lease that holds answers a linearizable read at the leader at once: the
/// cluster is not asked and stays as it is.
pub proof fn leases_answer_at_once(
    a: ApiV,
    lease: ReadLease,
    key: Seq<char>,
    timeout: Option<u64>,
)
    requires
        a.cluster.wf(),
        a.read_lease == Some(lease),
        a.lease_holds(lease),
    ensures
        ({
            let to = a.cluster.leader_id;
            let (after, response) = a.read(to, key, ReadConsistency::Linearizable, timeout);
            &&& after.cluster == a.cluster
            &&& after.read_lease == a.read_lease
            &&& response matches ClientResponseV::ReadResult { consistency, .. } && consistency
                == ReadConsistency::Linearizable
        }),
{
    reveal(ApiV::ensure_lease);
    raft_laws::leader_has_place(a.cluster);
    assert(raft_model::has_member(a.cluster.nodes, a.cluster.leader_id));
}

/// A read that no quorum answers in time is answered with that, with no index,
/// and with fewer acknowledgements than a majority.
pub proof fn reads_in_vain_say_so(a: ApiV, to: NodeId, ticks: nat)
    requires
        a.cluster.wf(),
        ticks <= u64::MAX,
        a.room_to_ask(to, ticks as u64),
    ensures
        a.await_quorum(to, ticks).1 matches Err(response) ==> match response {
            ClientResponseV::TimedOut { operation, index, observed_nodes } => {
                &&& operation == TimeoutOperation::LinearizableRead
                &&& index is None
                &&& 2 * observed_nodes <= a.cluster.nodes.len()
            },
            ClientResponseV::Redirect { leader } => leader.node_id
                == a.await_quorum(to, ticks).0.cluster.leader_id && leader.node_id != to,
            ClientResponseV::InternalError { .. } => true,
            _ => false,
        },
    decreases ticks,
{
    if to != a.cluster.leader_id {
        redirects_go_to_the_leader(a);
    } else {
        raft_laws::heartbeats_take_no_room(a.cluster);
        let (after, result) = a.cluster.heartbeat_round();
        if let Ok(round) = result {
            assert(round.quorum == a.cluster.quorum()) by {
                reveal(ClusterV::heartbeat_round);
            }
            if round.acknowledged_nodes < round.quorum && ticks > 0 {
                raft_laws::ticking_takes_room(after, ticks as int);
                let next = a.with_cluster(after).with_cluster(after.tick().0).drop_stale_lease();
                raft_laws::heartbeats_take_no_room(next.cluster);
                reads_in_vain_say_so(next, to, (ticks - 1) as nat);
            }
        }
    }
}

/// An INSERT that is committed is answered with one row and the index of its
/// write, and any other as its write was.
pub proof fn inserts_affect_one_row(a: ApiV, to: NodeId, command: CommandV, timeout: Option<u64>)
    ensures
        ({
            let (after, response) = a.write(to, command, timeout);
            let (inserted, answer) = a.insert(to, command, timeout);
            &&& inserted == after
            &&& if response is WriteCommitted {
                answer == (ClientResponseV::SqlWriteResult {
                    affected_rows: 1,
                    last_index: Some(response->WriteCommitted_index),
                    committed_nodes: response->WriteCommitted_committed_nodes,
                })
            } else {
                answer == response
            }
        }),
{
}

/// An UPDATE or DELETE without a row to write changes nothing but the versions
/// that it was looked for in, and is answered with no row and no index; one that
/// is asked of another node than the leader is sent there.
pub proof fn mutations_without_rows_write_nothing(
    a: ApiV,
    to: NodeId,
    predicate: PredicateV,
    value: Option<Seq<char>>,
    timeout: Option<u64>,
)
    ensures
        ({
            let (after, response) = a.mutate(to, predicate, value, timeout);
            &&& to != a.cluster.leader_id ==> after == a && sends_to_the_leader(a, response)
            &&& to == a.cluster.leader_id && a.affected(predicate).len() == 0 ==> {
                &&& after.cluster == a.cluster
                &&& response == (ClientResponseV::SqlWriteResult {
                    affected_rows: 0,
                    last_index: None,
                    committed_nodes: 0,
                })
            }
        }),
{
    redirects_go_to_the_leader(a);
}

/// Of the writes of an UPDATE or DELETE the first that is not committed ends it,
/// with its own answer; and where all are, the answer counts them and gives the
/// index of the last.
pub proof fn mutations_stop_at_the_first_failure(
    a: ApiV,
    to: NodeId,
    row: (Seq<char>, Seq<char>),
    rest: Seq<(Seq<char>, Seq<char>)>,
    value: Option<Seq<char>>,
    timeout: Option<u64>,
)
    requires
        rest.len() < usize::MAX,
    ensures
        ({
            let rows = seq![row] + rest;
            let command = match value {
                Some(v) => CommandV::Put { key: row.0, value: v },
                None => CommandV::Delete { key: row.0 },
            };
            let (written, answer) = a.write(to, command, timeout);
            let (after, response) = a.write_rows(to, rows, 0, value, timeout, None, 0);
            &&& answer !is WriteCommitted ==> after == written && response == answer
            &&& answer matches ClientResponseV::WriteCommitted { index, committed_nodes } ==> if rest.len()
                == 0 {
                &&& after == written
                &&& response == (ClientResponseV::SqlWriteResult {
                    affected_rows: 1,
                    last_index: Some(index),
                    committed_nodes,
                })
            } else {
                let (others, more) = written.write_rows(to, rest, 0, value, timeout, None, 0);
                &&& after == others
                &&& more is SqlWriteResult ==> response == (ClientResponseV::SqlWriteResult {
                    affected_rows: (more->affected_rows + 1) as usize,
                    last_index: more->last_index,
                    committed_nodes: more->SqlWriteResult_committed_nodes,
                })
                &&& more !is SqlWriteResult ==> response == more
            }
        }),
{
    let rows = seq![row] + rest;
    let command = api_model::row_command(row.0, value);
    let (written, answer) = a.write(to, command, timeout);
    assert(rows[0] == row);
    if let ClientResponseV::WriteCommitted { index, committed_nodes } = answer {
        assert(a.write_rows(to, rows, 0, value, timeout, None, 0) == written.write_rows(
            to,
            rows,
            1,
            value,
            timeout,
            Some(index),
            committed_nodes,
        ));
        if rest.len() > 0 {
            later_rows_are_written_alike(
                written,
                to,
                row,
                rest,
                0,
                value,
                timeout,
                Some(index),
                committed_nodes,
                None,
                0,
            );
        }
    }
}

proof fn waits_are_answered_as_writes(a: ApiV, index: Index, ticks: nat, observed: usize)
    ensures
        a.await_commit(index, ticks, observed).1 !is SqlWriteResult,
    decreases ticks,
{
    if ticks > 0 && a.cluster.tick().1 is Ok {
        let after = a.cluster.tick().0;
        let count = raft_model::count_reaching(raft_model::commits(after.nodes), index) as usize;
        if count < after.quorum() {
            waits_are_answered_as_writes(a.with_cluster(after), index, (ticks - 1) as nat, count);
        }
    }
}

proof fn writes_are_answered_as_writes(
    a: ApiV,
    to: NodeId,
    command: CommandV,
    timeout: Option<u64>,
)
    ensures
        a.write(to, command, timeout).1 !is SqlWriteResult,
{
    reveal(ApiV::write);
    let fresh = a.drop_stale_lease();
    let (after, result) = fresh.cluster.propose(command);
    if let Ok(outcome) = result {
        waits_are_answered_as_writes(
            fresh.with_cluster(after),
            outcome.index,
            fresh.write_ticks(timeout) as nat,
            outcome.committed_nodes,
        );
    }
}

proof fn later_rows_are_written_alike(
    a: ApiV,
    to: NodeId,
    row: (Seq<char>, Seq<char>),
    rest: Seq<(Seq<char>, Seq<char>)>,
    i: nat,
    value: Option<Seq<char>>,
    timeout: Option<u64>,
    last: Option<Index>,
    committed: usize,
    last_of_rest: Option<Index>,
    committed_of_rest: usize,
)
    requires
        i <= rest.len() < usize::MAX,
        i == rest.len() ==> last == last_of_rest && committed == committed_of_rest,
    ensures
        ({
            let (after, response) = a.write_rows(
                to,
                seq![row] + rest,
                i + 1,
                value,
                timeout,
                last,
                committed,
            );
            let (others, more) = a.write_rows(
                to,
                rest,
                i,
                value,
                timeout,
                last_of_rest,
                committed_of_rest,
            );
            &&& after == others
            &&& more is SqlWriteResult ==> response is SqlWriteResult && response->last_index
                == more->last_index && response->SqlWriteResult_committed_nodes
                == more->SqlWriteResult_committed_nodes && response->affected_rows == (
            rest.len() + 1) as usize && more->affected_rows == rest.len() as usize
            &&& more !is SqlWriteResult ==> response == more
        }),
    decreases rest.len() - i,
{
    let rows = seq![row] + rest;
    if i < rest.len() {
        assert(rows[i + 1int] == rest[i as int]);
        let command = api_model::row_command(rest[i as int].0, value);
        let (written, answer) = a.write(to, command, timeout);
        if let ClientResponseV::WriteCommitted { index, committed_nodes } = answer {
            later_rows_are_written_alike(
                written,
                to,
                row,
                rest,
                i + 1,
                value,
                timeout,
                Some(index),
                committed_nodes,
                Some(index),
                committed_nodes,
            );
        } else {
            writes_are_answered_as_writes(a, to, command, timeout);
        }
    }
}

proof fn found_addresses_are_listed(addresses: Seq<AddressV>, id: NodeId)
    ensures
        api_model::address_of(addresses, id) matches Some(address) ==> addresses.contains(address),
    decreases addresses.len(),
{
    if addresses.len() > 0 && addresses[0].node_id != id {
        let rest = addresses.skip(1);
        found_addresses_are_listed(rest, id);
        if let Some(address) = api_model::address_of(rest, id) {
            let i = choose|i: int| 0 <= i < rest.len() && rest[i] == address;
            assert(addresses[i + 1] == address);
        }
    }
}

/// A request to an unknown destination is refused with its id and endpoint, and
/// changes nothing.
pub proof fn unknown_destinations_are_named(a: ApiV, envelope: RequestEnvelopeV)
    requires
        forall|i: int|
            0 <= i < a.addresses.len() && (#[trigger] a.addresses[i]).node_id
                == envelope.to.node_id ==> a.addresses[i].endpoint != envelope.to.endpoint,
    ensures
        a.handle(envelope).0 == a,
        a.handle(envelope).1.response == (ClientResponseV::RouteError {
            message: "unknown destination "@ + text::decimal(envelope.to.node_id as nat) + " ("@
                + envelope.to.endpoint + ")"@,
        }),
{
    found_addresses_are_listed(a.addresses, envelope.to.node_id);
    api_laws::found_addresses_are_the_nodes(a.addresses, envelope.to.node_id);
    if api_model::address_of(a.addresses, envelope.to.node_id) == Some(envelope.to) {
        let i = choose|i: int| 0 <= i < a.addresses.len() && a.addresses[i] == envelope.to;
        assert(a.addresses[i].endpoint == envelope.to.endpoint);
    }
}

/// A majority of the members has committed an index.
pub open spec fn is_committed(c: ClusterV, index: Index) -> bool {
    2 * raft_model::count_reaching(raft_model::commits(c.nodes), index) > c.nodes.len()
}

/// Fewer than `n` ticks have neither failed nor led to a majority.
pub open spec fn waits_in_vain(c: ClusterV, index: Index, n: nat) -> bool {
    forall|m: nat|
        1 <= m < n ==> (#[trigger] c.tick_many(m)).1 is Ok && !is_committed(
            c.tick_many(m).0,
            index,
        )
}

/// How waiting for a commit ends: at the first tick that fails, with its error;
/// or at the first after which a majority has committed the index, with the index
/// and how many have; or when the time is up, with how many had at the last tick.
pub proof fn waits_end_with_the_first_news(
    a: ApiV,
    index: Index,
    ticks: nat,
    observed: usize,
    n: nat,
)
    requires
        a.cluster.wf(),
        a.cluster.room(ticks as int),
        n <= ticks + 1,
        waits_in_vain(a.cluster, index, n),
    ensures
        ({
            let (after, response) = a.await_commit(index, ticks, observed);
            let (c, result) = a.cluster.tick_many(n);
            let last = a.cluster.tick_many(ticks).0;
            &&& 1 <= n <= ticks && result is Err ==> after.cluster == c && response == (
            ClientResponseV::InternalError { message: result->Err_0.display() })
            &&& 1 <= n <= ticks && result is Ok && is_committed(c, index) ==> {
                &&& after.cluster == c
                &&& response == (ClientResponseV::WriteCommitted {
                    index,
                    committed_nodes: raft_model::count_reaching(
                        raft_model::commits(c.nodes),
                        index,
                    ) as usize,
                })
            }
            &&& n == ticks + 1 ==> {
                &&& after.cluster == last
                &&& response == (ClientResponseV::TimedOut {
                    operation: TimeoutOperation::Proposal,
                    index: Some(index),
                    observed_nodes: if ticks == 0 {
                        observed
                    } else {
                        raft_model::count_reaching(raft_model::commits(last.nodes), index) as usize
                    },
                })
            }
        }),
    decreases ticks,
{
    if ticks > 0 && n > 0 {
        raft_laws::ticking_takes_room(a.cluster, ticks as int);
        let c = a.cluster;
        let (d, first) = c.tick();
        raft_clock::ticks_follow_each_other(c, 0);
        assert(c.tick_many(1) == c.tick());
        raft_model::counts_are_bounded(raft_model::commits(d.nodes), index);
        let count = raft_model::count_reaching(raft_model::commits(d.nodes), index) as usize;
        if n > 1 {
            assert(c.tick_many(1).1 is Ok && !is_committed(c.tick_many(1).0, index));
            assert forall|m: nat| 1 <= m < n - 1 implies (#[trigger] d.tick_many(m)).1 is Ok
                && !is_committed(d.tick_many(m).0, index) by {
                assert(c.tick_many(m + 1) == d.tick_many(m));
            }
            waits_end_with_the_first_news(
                a.with_cluster(d),
                index,
                (ticks - 1) as nat,
                count,
                (n - 1) as nat,
            );
            assert(c.tick_many(n) == d.tick_many((n - 1) as nat));
            assert(c.tick_many(ticks) == d.tick_many((ticks - 1) as nat));
        }
    }
}

/// A write to a leader that may take it is committed at once where a majority
/// has committed it by the end of the proposal, fails with the proposal's error
/// where that failed, and waits otherwise, for as long as was asked.
pub proof fn writes_propose_and_wait(a: ApiV, command: CommandV, timeout: Option<u64>)
    requires
        a.cluster.wf(),
        a.room_to_write(a.cluster.leader_id, command, timeout),
        a.pending() < a.config.max_pending_entries,
    ensures
        ({
            let (after, response) = a.write(a.cluster.leader_id, command, timeout);
            let (c, result) = a.cluster.propose(command);
            let asked = if timeout is Some {
                timeout->0
            } else {
                a.config.proposal_timeout_ticks
            };
            match result {
                Err(error) => after.cluster == c && response == (ClientResponseV::InternalError {
                    message: error.display(),
                }),
                Ok(outcome) => if 2 * outcome.committed_nodes > c.nodes.len() {
                    &&& after.cluster == c
                    &&& response == (ClientResponseV::WriteCommitted {
                        index: outcome.index,
                        committed_nodes: outcome.committed_nodes,
                    })
                } else {
                    (after, response) == a.drop_stale_lease().with_cluster(c).await_commit(
                        outcome.index,
                        asked as nat,
                        outcome.committed_nodes,
                    )
                },
            }
        }),
{
    reveal(ApiV::write);
    raft_laws::proposing_takes_room(a.cluster, command, 1);
}

/// Answers to reads say how fresh they were asked to be.
pub proof fn answers_carry_the_asked_consistency(
    a: ApiV,
    to: NodeId,
    key: Seq<char>,
    columns: Seq<ColumnName>,
    predicate: Option<PredicateV>,
    consistency: ReadConsistency,
    timeout: Option<u64>,
)
    ensures
        a.read(to, key, consistency, timeout).1 matches ClientResponseV::ReadResult {
            consistency: said,
            ..
        } ==> said == consistency,
        a.select(to, columns, predicate, consistency, timeout).1 matches ClientResponseV::SqlRows {
            consistency: said,
            ..
        } ==> said == consistency,
{
    api_laws::linearizable_reads_are_asked_for(a, to, timeout);
}

/// An eventual read at an unknown member is answered with its id.
pub proof fn unknown_members_answer_nothing(
    a: ApiV,
    to: NodeId,
    key: Seq<char>,
    timeout: Option<u64>,
)
    requires
        forall|i: int| 0 <= i < a.cluster.nodes.len() ==> (#[trigger] a.cluster.nodes[i]).id != to,
    ensures
        a.read(to, key, ReadConsistency::Eventual, timeout) == (
            a,
            ClientResponseV::InternalError {
                message: "node "@ + text::decimal(to as nat) + " not found"@,
            },
        ),
{
}

/// How a leader asks whether a quorum still follows it: with a round of
/// heartbeats, and where too few answer, with another a tick later, as often as
/// there are ticks to wait. An error ends the asking, and so does another leader.
pub proof fn quorums_are_asked_for_in_rounds(a: ApiV, to: NodeId, ticks: nat)
    requires
        a.cluster.wf(),
    ensures
        ({
            let (after, answer) = a.await_quorum(to, ticks);
            let (c, result) = a.cluster.heartbeat_round();
            if to != a.cluster.leader_id {
                after == a && answer is Err && sends_to_the_leader(a, answer->Err_0)
            } else {
                match result {
                    Err(error) => after == (ApiV { cluster: c, ..a }) && answer == Err::<
                        NodeId,
                        ClientResponseV,
                    >(ClientResponseV::InternalError { message: error.display() }),
                    Ok(round) => if 2 * round.acknowledged_nodes > a.cluster.nodes.len() {
                        &&& after == (ApiV { cluster: c, ..a }).record_lease(round)
                        &&& answer == Ok::<NodeId, ClientResponseV>(to)
                    } else if ticks == 0 {
                        &&& after == (ApiV { cluster: c, ..a })
                        &&& answer == Err::<NodeId, ClientResponseV>(
                            ClientResponseV::TimedOut {
                                operation: TimeoutOperation::LinearizableRead,
                                index: None,
                                observed_nodes: round.acknowledged_nodes,
                            },
                        )
                    } else {
                        match c.tick() {
                            (d, Err(error)) => after == (ApiV { cluster: d, ..a }) && answer
                                == Err::<NodeId, ClientResponseV>(
                                ClientResponseV::InternalError { message: error.display() },
                            ),
                            (d, Ok(_)) => (after, answer) == (ApiV { cluster: d, ..a }).drop_stale_lease().await_quorum(
                            to, (ticks - 1) as nat),
                        }
                    },
                }
            }
        }),
{
    redirects_go_to_the_leader(a);
    if to == a.cluster.leader_id {
        raft_calls::heartbeats_name_their_leader(a.cluster);
    }
}

/// A leader that a majority follows, itself among them, answers a linearizable
/// read, where nobody keeps files.
pub proof fn majorities_answer_reads(a: ApiV, key: Seq<char>, timeout: Option<u64>)
    requires
        raft_soundness::sound(a.cluster),
        raft_progress::without_files(a.cluster),
        a.cluster.available(a.cluster.leader_at()),
        2 * (1 + raft_calls::others_following(a.cluster, a.cluster.leader_at(), 0))
            > a.cluster.nodes.len(),
    ensures
        a.read(a.cluster.leader_id, key, ReadConsistency::Linearizable, timeout).1 is ReadResult,
{
    reveal(ApiV::ensure_lease);
    let c = a.cluster;
    let l = c.leader_at();
    let h = choose|h: raft_soundness::History| #[trigger] h.explains(c, l);
    raft_soundness::explained_place(c, h, l);
    raft_laws::leader_has_place(c);
    assert(raft_model::has_member(c.nodes, c.leader_id));
    let fresh = a.drop_stale_lease();
    if fresh.read_lease is None {
        raft_calls::followers_acknowledge(c);
        quorums_are_asked_for_in_rounds(fresh, c.leader_id, fresh.read_ticks(timeout) as nat);
        api_laws::rounds_keep_the_leader(c);
        let d = c.heartbeat_round().0;
        raft_laws::heartbeats_take_no_room(c);
        assert(d.leader_id == c.leader_id && d.wf());
        raft_laws::leader_has_place(d);
        assert(raft_model::has_member(d.nodes, d.leader_id));
    }
}

/// There is room for ticks where the clock and all terms can go up as often, and
/// for entries where all logs can take as many.
pub proof fn room_is_left_in_numbers(c: ClusterV, n: int)
    requires
        c.wf(),
    ensures
        c.room(n) <==> c.clock_ticks + n <= u64::MAX && forall|i: int|
            0 <= i < c.nodes.len() ==> (#[trigger] c.nodes[i]).current_term + n <= u64::MAX,
        c.log_room(n) <==> forall|i: int|
            0 <= i < c.nodes.len() ==> end_of((#[trigger] c.nodes[i]).log).1 + n < u64::MAX,
{
    assert forall|i: int| 0 <= i < c.nodes.len() implies end_of((#[trigger] c.nodes[i]).log).1
        == c.nodes[i].log.last_index() by {
        assert(c.member_ok(i));
    }
    if c.log_room(n) {
        assert forall|i: int| 0 <= i < c.nodes.len() implies end_of((#[trigger] c.nodes[i]).log).1
            + n < u64::MAX by {
            assert(c.nodes[i].log.last_index() + n < u64::MAX);
        }
    }
}

/// How many writes a request may need: one for a write and an INSERT, one for
/// each matching row for an UPDATE and a DELETE, and none for a read and a
/// SELECT; and none where another node is asked or too much is pending.
pub proof fn requests_need_as_many_writes(a: ApiV, to: NodeId, request: ClientRequestV)
    ensures
        ({
            let writes = a.writes_of(to, request);
            let served = to == a.cluster.leader_id && a.pending() < a.config.max_pending_entries;
            &&& !served ==> writes == 0
            &&& served ==> match request {
                ClientRequestV::Write(_) => writes == 1,
                ClientRequestV::Read { .. } => writes == 0,
                ClientRequestV::Sql { query, .. } => match sql_parser::parsed(query) {
                    Err(_) => writes == 0,
                    Ok(SqlStatementV::Select { .. }) => writes == 0,
                    Ok(SqlStatementV::Insert { .. }) => writes == 1,
                    Ok(SqlStatementV::Update { predicate, .. }) => writes == a.affected(
                        predicate,
                    ).len(),
                    Ok(SqlStatementV::Delete { predicate, .. }) => writes == a.affected(
                        predicate,
                    ).len(),
                },
            }
        }),
{
    if let ClientRequestV::Sql { query, .. } = request {
        if let Ok(statement) = sql_parser::parsed(query) {
            sql_plan::planned_statements_lower(statement);
        }
    }
}

/// A request finds room where the numbers are not at their end: where the clock
/// and the terms can go up by the ticks that its reads may wait, and by those of
/// all of its writes, and where the logs can take these writes.
pub proof fn requests_find_room(a: ApiV, envelope: RequestEnvelopeV, ticks: int)
    requires
        a.cluster.room(ticks),
        a.cluster.log_room(a.writes_of(envelope.to.node_id, envelope.request)),
        ticks >= if envelope.timeout_ticks is Some {
            envelope.timeout_ticks->0
        } else {
            a.config.read_timeout_ticks
        },
        ticks >= a.writes_of(envelope.to.node_id, envelope.request)
            * if envelope.timeout_ticks is Some {
            envelope.timeout_ticks->0
        } else {
            a.config.proposal_timeout_ticks
        },
    ensures
        a.ample_room_for(envelope),
        a.cluster.wf() ==> a.room_for_envelope(envelope),
{
    if a.cluster.wf() {
        api_laws::ample_room_suffices(a, envelope);
    }
}

} // verus!
