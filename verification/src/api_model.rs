//! The client interface as a state machine over the cluster.
use vstd::prelude::*;

use crate::api_types;
use crate::api_types::{
    AddressV, ClientRequestV, ClientResponseV, ReadConsistency, RequestEnvelopeV,
    ResponseEnvelopeV, TimeoutOperation, TransportConfig,
};
use crate::mvcc::{CatalogV, Timestamp, VersionV};
use crate::raft_model;
use crate::raft_model::{ClusterV, HeartbeatRoundOutcome};
use crate::raft_node::MIN_ELECTION_TIMEOUT_TICKS;
use crate::sql_ast;
use crate::sql_ast::{ColumnName, KvExecutionPlanV, PredicateV};
use crate::sql_plan;
use crate::state_machine;
use crate::state_machine::KvMap;
use crate::text;
use crate::types::{CommandV, DbErrorV, Index, LogEntryV, NodeId, Term};

verus! {

/// Evidence that a quorum has followed the leader until a while ago.
#[derive(Debug, Clone, Copy, PartialEq, Eq, Structural)]
pub struct ReadLease {
    pub leader_id: NodeId,
    pub term: Term,
    pub issued_at_tick: u64,
    pub expires_at_tick: u64,
    pub acknowledged_nodes: usize,
}

/// The state of the client interface.
#[verifier::ext_equal]
pub struct ApiV {
    pub cluster: ClusterV,
    pub addresses: Seq<AddressV>,
    pub config: TransportConfig,
    pub read_lease: Option<ReadLease>,
    pub mvcc: CatalogV,
    pub mvcc_first_index: Index,
    pub mvcc_last_applied_index: Index,
}

/// The first address of a node.
pub open spec fn address_of(addresses: Seq<AddressV>, id: NodeId) -> Option<AddressV>
    decreases addresses.len(),
{
    if addresses.len() == 0 {
        None
    } else if addresses[0].node_id == id {
        Some(addresses[0])
    } else {
        address_of(addresses.skip(1), id)
    }
}

/// The configuration with leases that end before any member can stand for
/// election.
pub open spec fn hardened(config: TransportConfig) -> TransportConfig {
    TransportConfig {
        read_lease_ticks: if config.read_lease_ticks <= MIN_ELECTION_TIMEOUT_TICKS - 1 {
            config.read_lease_ticks
        } else {
            (MIN_ELECTION_TIMEOUT_TICKS - 1) as u64
        },
        ..config
    }
}

/// The versions that stand for a state at a time: one open version per key.
pub open spec fn catalog_of(state: KvMap, ts: Timestamp) -> CatalogV {
    CatalogV {
        next_txn_id: 0,
        chains: state.map_values(
            |value: Seq<char>|
                seq![
                    VersionV { begin_ts: ts, end_ts: None, value: Some(value), writer_txn: 0 },
                ],
        ),
    }
}

/// The value that a command gives its key.
pub open spec fn written_value(command: CommandV) -> Option<Seq<char>> {
    match command {
        CommandV::Put { value, .. } => Some(value),
        CommandV::Delete { .. } => None,
    }
}

/// Every entry becomes a version at its index, in order.
pub open spec fn noted(mvcc: CatalogV, entries: Seq<LogEntryV>) -> CatalogV
    decreases entries.len(),
{
    if entries.len() == 0 {
        mvcc
    } else {
        let entry = entries.last();
        noted(mvcc, entries.drop_last()).committed(
            state_machine::key_of(entry.command),
            written_value(entry.command),
            entry.index,
            entry.index,
        )
    }
}

/// The response for an error of the cluster.
pub open spec fn internal_error(error: DbErrorV) -> ClientResponseV {
    ClientResponseV::InternalError { message: error.display() }
}

/// The rows that meet the predicate, where there is one, in the same order.
pub open spec fn selected(rows: Seq<(Seq<char>, Seq<char>)>, predicate: Option<PredicateV>) -> Seq<
    (Seq<char>, Seq<char>),
>
    decreases rows.len(),
{
    if rows.len() == 0 {
        Seq::empty()
    } else {
        let rest = selected(rows.drop_last(), predicate);
        let last = rows.last();
        match predicate {
            Some(p) => if sql_plan::meets(last.0, last.1, p) {
                rest.push(last)
            } else {
                rest
            },
            None => rest.push(last),
        }
    }
}

/// The columns of rows.
pub open spec fn projections(
    rows: Seq<(Seq<char>, Seq<char>)>,
    columns: Seq<ColumnName>,
) -> Seq<Seq<Seq<char>>> {
    Seq::new(rows.len(), |i: int| sql_plan::projected(rows[i].0, rows[i].1, columns))
}

/// The write of one row of an UPDATE or DELETE.
pub open spec fn row_command(key: Seq<char>, value: Option<Seq<char>>) -> CommandV {
    match value {
        Some(v) => CommandV::Put { key, value: v },
        None => CommandV::Delete { key },
    }
}

impl ApiV {
    /// The interface to a cluster that nobody has used yet.
    pub open spec fn opened(cluster: ClusterV, config: TransportConfig) -> ApiV {
        let leader = cluster.nodes[cluster.leader_at()];
        ApiV {
            cluster,
            addresses: Seq::new(
                cluster.nodes.len(),
                |i: int| api_types::default_address(cluster.nodes[i].id),
            ),
            config: hardened(config),
            read_lease: None,
            mvcc: catalog_of(leader.state, 0),
            mvcc_first_index: leader.commit_index,
            mvcc_last_applied_index: leader.commit_index,
        }
    }

    pub open spec fn with_cluster(self, cluster: ClusterV) -> ApiV {
        ApiV { cluster, ..self }
    }

    /// The address of the leader.
    pub open spec fn leader_address(self) -> AddressV {
        match address_of(self.addresses, self.cluster.leader_id) {
            Some(address) => address,
            None => api_types::default_address(self.cluster.leader_id),
        }
    }

    pub open spec fn redirect(self) -> ClientResponseV {
        ClientResponseV::Redirect { leader: self.leader_address() }
    }

    /// How many entries the leader has not committed yet.
    pub open spec fn pending(self) -> u64 {
        let leader = self.cluster.nodes[self.cluster.leader_at()];
        if leader.log.last_index() >= leader.commit_index {
            (leader.log.last_index() - leader.commit_index) as u64
        } else {
            0
        }
    }

    /// A lease holds for the same leader in the same term, on the word of a
    /// quorum, and from when it was issued until it expires.
    pub open spec fn lease_holds(self, lease: ReadLease) -> bool {
        &&& lease.leader_id == self.cluster.leader_id
        &&& lease.term == self.cluster.current_term
        &&& lease.acknowledged_nodes >= self.cluster.quorum()
        &&& lease.issued_at_tick <= self.cluster.clock_ticks <= lease.expires_at_tick
    }

    /// A lease that does not hold any more is dropped.
    pub open spec fn drop_stale_lease(self) -> ApiV {
        match self.read_lease {
            Some(lease) => if self.lease_holds(lease) {
                self
            } else {
                ApiV { read_lease: None, ..self }
            },
            None => self,
        }
    }

    /// The lease that a round of heartbeats gives.
    pub open spec fn record_lease(self, round: HeartbeatRoundOutcome) -> ApiV {
        if self.config.read_lease_ticks == 0 || round.acknowledged_nodes < round.quorum {
            ApiV { read_lease: None, ..self }
        } else {
            let now = self.cluster.clock_ticks;
            ApiV {
                read_lease: Some(
                    ReadLease {
                        leader_id: round.leader_id,
                        term: round.term,
                        issued_at_tick: now,
                        expires_at_tick: if now + self.config.read_lease_ticks > u64::MAX {
                            u64::MAX
                        } else {
                            (now + self.config.read_lease_ticks) as u64
                        },
                        acknowledged_nodes: round.acknowledged_nodes,
                    },
                ),
                ..self
            }
        }
    }

    /// Versions that stand for what the member at place `i` has committed.
    pub open spec fn restated(self, i: int) -> ApiV {
        let node = self.cluster.nodes[i];
        ApiV {
            mvcc: catalog_of(node.state, node.commit_index),
            mvcc_first_index: node.commit_index,
            mvcc_last_applied_index: node.commit_index,
            ..self
        }
    }

    /// Everything committed through an index becomes versions, out of the
    /// leader's log, or out of its state where the log does not reach back to
    /// what was noted before.
    pub open spec fn note_commits(self, index: Index) -> ApiV {
        let leader = self.cluster.nodes[self.cluster.leader_at()];
        let base = leader.log.base_index;
        let from = self.mvcc_last_applied_index;
        if index <= from {
            self
        } else if base <= from && index <= leader.log.last_index() {
            ApiV {
                mvcc: noted(self.mvcc, leader.log.entries.subrange(from - base, index - base)),
                mvcc_last_applied_index: index,
                ..self
            }
        } else {
            self.restated(self.cluster.leader_at())
        }
    }

    /// The versions for a read at a member's commit index. They show what was
    /// committed at every index from their first through their last; where the
    /// member's commit index lies before or after these, they are replaced by
    /// the member's state.
    pub open spec fn versions_for(self, id: NodeId) -> ApiV {
        let i = raft_model::position(self.cluster.nodes, id);
        let commit = self.cluster.nodes[i].commit_index;
        if self.mvcc_first_index <= commit <= self.mvcc_last_applied_index {
            self
        } else {
            self.restated(i)
        }
    }

    /// Ticks until a quorum has committed an index, or the time is up.
    pub open spec fn await_commit(self, index: Index, ticks: nat, observed: usize) -> (
        ApiV,
        ClientResponseV,
    )
        decreases ticks,
    {
        if ticks == 0 {
            (
                self,
                ClientResponseV::TimedOut {
                    operation: TimeoutOperation::Proposal,
                    index: Some(index),
                    observed_nodes: observed,
                },
            )
        } else {
            match self.cluster.tick() {
                (after, Err(error)) => (self.with_cluster(after), internal_error(error)),
                (after, Ok(_)) => {
                    let ticked = self.with_cluster(after);
                    let count = raft_model::count_reaching(
                        raft_model::commits(after.nodes),
                        index,
                    ) as usize;
                    if count >= after.quorum() {
                        (
                            ticked.note_commits(index),
                            ClientResponseV::WriteCommitted { index, committed_nodes: count },
                        )
                    } else {
                        ticked.await_commit(index, (ticks - 1) as nat, count)
                    }
                },
            }
        }
    }

    /// How many ticks a write waits.
    pub open spec fn write_ticks(self, timeout: Option<u64>) -> u64 {
        match timeout {
            Some(ticks) => ticks,
            None => self.config.proposal_timeout_ticks,
        }
    }

    /// How many ticks a read waits.
    pub open spec fn read_ticks(self, timeout: Option<u64>) -> u64 {
        match timeout {
            Some(ticks) => ticks,
            None => self.config.read_timeout_ticks,
        }
    }

    /// A write to the node `to`: only the leader takes it, and only while not
    /// too much is pending.
    #[verifier::opaque]
    pub open spec fn write(self, to: NodeId, command: CommandV, timeout: Option<u64>) -> (
        ApiV,
        ClientResponseV,
    ) {
        let fresh = self.drop_stale_lease();
        if to != fresh.cluster.leader_id {
            (fresh, fresh.redirect())
        } else if fresh.pending() >= fresh.config.max_pending_entries {
            (
                fresh,
                ClientResponseV::Overloaded {
                    pending_entries: fresh.pending(),
                    limit: fresh.config.max_pending_entries,
                },
            )
        } else {
            match fresh.cluster.propose(command) {
                (after, Err(error)) => (fresh.with_cluster(after), internal_error(error)),
                (after, Ok(outcome)) => {
                    let proposed = fresh.with_cluster(after);
                    if outcome.committed_nodes >= after.quorum() {
                        (
                            proposed.note_commits(outcome.index),
                            ClientResponseV::WriteCommitted {
                                index: outcome.index,
                                committed_nodes: outcome.committed_nodes,
                            },
                        )
                    } else {
                        proposed.await_commit(
                            outcome.index,
                            fresh.write_ticks(timeout) as nat,
                            outcome.committed_nodes,
                        )
                    }
                },
            }
        }
    }

    /// Rounds of heartbeats, a tick apart, until a quorum answers the leader at
    /// `to`, or the time is up.
    pub open spec fn await_quorum(self, to: NodeId, ticks: nat) -> (
        ApiV,
        Result<NodeId, ClientResponseV>,
    )
        decreases ticks,
    {
        if to != self.cluster.leader_id {
            (self, Err(self.redirect()))
        } else {
            match self.cluster.heartbeat_round() {
                (after, Err(error)) => (self.with_cluster(after), Err(internal_error(error))),
                (after, Ok(round)) => {
                    let asked = self.with_cluster(after);
                    if round.acknowledged_nodes >= round.quorum {
                        (asked.record_lease(round), Ok(round.leader_id))
                    } else if ticks == 0 {
                        (
                            asked,
                            Err(
                                ClientResponseV::TimedOut {
                                    operation: TimeoutOperation::LinearizableRead,
                                    index: None,
                                    observed_nodes: round.acknowledged_nodes,
                                },
                            ),
                        )
                    } else {
                        match after.tick() {
                            (ticked, Err(error)) => (
                                asked.with_cluster(ticked),
                                Err(internal_error(error)),
                            ),
                            (ticked, Ok(_)) => asked.with_cluster(
                                ticked,
                            ).drop_stale_lease().await_quorum(to, (ticks - 1) as nat),
                        }
                    }
                },
            }
        }
    }

    /// The leader at `to` may answer linearizable reads: it holds a lease, or a
    /// quorum answers it now.
    #[verifier::opaque]
    pub open spec fn ensure_lease(self, to: NodeId, timeout: Option<u64>) -> (
        ApiV,
        Result<NodeId, ClientResponseV>,
    ) {
        if to != self.cluster.leader_id {
            (self, Err(self.redirect()))
        } else {
            let fresh = self.drop_stale_lease();
            match fresh.read_lease {
                Some(lease) => (fresh, Ok(lease.leader_id)),
                None => fresh.await_quorum(to, fresh.read_ticks(timeout) as nat),
            }
        }
    }

    /// The commit index of a member.
    pub open spec fn commit_of(self, id: NodeId) -> Result<Timestamp, ClientResponseV> {
        if raft_model::has_member(self.cluster.nodes, id) {
            Ok(self.cluster.nodes[raft_model::position(self.cluster.nodes, id)].commit_index)
        } else {
            Err(internal_error(DbErrorV::NodeNotFound(id)))
        }
    }

    /// The time that a read at `to` reads at.
    pub open spec fn read_time(
        self,
        to: NodeId,
        consistency: ReadConsistency,
        timeout: Option<u64>,
    ) -> (ApiV, Result<Timestamp, ClientResponseV>) {
        match consistency {
            ReadConsistency::Eventual => (self, self.commit_of(to)),
            ReadConsistency::Linearizable => match self.ensure_lease(to, timeout) {
                (after, Err(response)) => (after, Err(response)),
                (after, Ok(leader)) => (after, after.commit_of(leader)),
            },
        }
    }

    /// A read of a key at the node `to`.
    pub open spec fn read(
        self,
        to: NodeId,
        key: Seq<char>,
        consistency: ReadConsistency,
        timeout: Option<u64>,
    ) -> (ApiV, ClientResponseV) {
        match self.read_time(to, consistency, timeout) {
            (after, Err(response)) => (after, response),
            (after, Ok(ts)) => {
                let ensured = after.versions_for(to);
                (
                    ensured,
                    ClientResponseV::ReadResult { value: ensured.mvcc.read(key, ts), consistency },
                )
            },
        }
    }

    /// A query at the node `to`.
    pub open spec fn select(
        self,
        to: NodeId,
        columns: Seq<ColumnName>,
        predicate: Option<PredicateV>,
        consistency: ReadConsistency,
        timeout: Option<u64>,
    ) -> (ApiV, ClientResponseV) {
        match self.read_time(to, consistency, timeout) {
            (after, Err(response)) => (after, response),
            (after, Ok(ts)) => {
                let ensured = after.versions_for(to);
                (
                    ensured,
                    ClientResponseV::SqlRows {
                        columns: sql_plan::headers(columns),
                        rows: projections(selected(ensured.mvcc.rows(ts), predicate), columns),
                        consistency,
                    },
                )
            },
        }
    }

    /// An INSERT at the node `to`: one write, answered as a statement.
    pub open spec fn insert(self, to: NodeId, command: CommandV, timeout: Option<u64>) -> (
        ApiV,
        ClientResponseV,
    ) {
        match self.write(to, command, timeout) {
            (after, ClientResponseV::WriteCommitted { index, committed_nodes }) => (
                after,
                ClientResponseV::SqlWriteResult {
                    affected_rows: 1,
                    last_index: Some(index),
                    committed_nodes,
                },
            ),
            (after, other) => (after, other),
        }
    }

    /// Writes of the rows from place `i` on, until one is not committed.
    pub open spec fn write_rows(
        self,
        to: NodeId,
        rows: Seq<(Seq<char>, Seq<char>)>,
        i: nat,
        value: Option<Seq<char>>,
        timeout: Option<u64>,
        last_index: Option<Index>,
        committed: usize,
    ) -> (ApiV, ClientResponseV)
        decreases rows.len() - i,
    {
        if i >= rows.len() {
            (
                self,
                ClientResponseV::SqlWriteResult {
                    affected_rows: i as usize,
                    last_index,
                    committed_nodes: committed,
                },
            )
        } else {
            match self.write(to, row_command(rows[i as int].0, value), timeout) {
                (after, ClientResponseV::WriteCommitted { index, committed_nodes }) =>
                    after.write_rows(
                    to,
                    rows,
                    i + 1,
                    value,
                    timeout,
                    Some(index),
                    committed_nodes,
                ),
                (after, other) => (after, other),
            }
        }
    }

    /// The versions for what the leader has committed.
    pub open spec fn in_step_with_the_leader(self) -> ApiV {
        self.versions_for(self.cluster.leader_id)
    }

    /// The rows that an UPDATE or DELETE is about.
    pub open spec fn affected(self, predicate: PredicateV) -> Seq<(Seq<char>, Seq<char>)> {
        let commit = self.cluster.nodes[self.cluster.leader_at()].commit_index;
        selected(self.in_step_with_the_leader().mvcc.rows(commit), Some(predicate))
    }

    /// An UPDATE to `value`, or a DELETE where there is none, at the node `to`:
    /// every row that meets the predicate is written.
    pub open spec fn mutate(
        self,
        to: NodeId,
        predicate: PredicateV,
        value: Option<Seq<char>>,
        timeout: Option<u64>,
    ) -> (ApiV, ClientResponseV) {
        if to != self.cluster.leader_id {
            (self, self.redirect())
        } else {
            self.in_step_with_the_leader().write_rows(
                to,
                self.affected(predicate),
                0,
                value,
                timeout,
                None,
                0,
            )
        }
    }

    /// What is done for a statement.
    pub open spec fn execute(
        self,
        to: NodeId,
        plan: KvExecutionPlanV,
        consistency: ReadConsistency,
        timeout: Option<u64>,
    ) -> (ApiV, ClientResponseV) {
        match plan {
            KvExecutionPlanV::Select { columns, predicate } => self.select(
                to,
                columns,
                predicate,
                consistency,
                timeout,
            ),
            KvExecutionPlanV::Insert { key, value } => self.insert(
                to,
                CommandV::Put { key, value },
                timeout,
            ),
            KvExecutionPlanV::Delete { predicate } => self.mutate(to, predicate, None, timeout),
            KvExecutionPlanV::Update { value, predicate } => self.mutate(
                to,
                predicate,
                Some(value),
                timeout,
            ),
        }
    }

    /// The execution plan of a query, or the response that refuses it.
    pub open spec fn plan_of(query: Seq<char>) -> Result<KvExecutionPlanV, ClientResponseV> {
        match sql_plan::planned_text(query) {
            Err(message) => Err(
                ClientResponseV::InvalidQuery { message: sql_ast::sql_error_display(message) },
            ),
            Ok(plan) => match sql_plan::lowered(plan) {
                Err(message) => Err(
                    ClientResponseV::InvalidQuery { message: sql_ast::sql_error_display(message) },
                ),
                Ok(execution) => Ok(execution),
            },
        }
    }

    /// A statement at the node `to`.
    pub open spec fn sql(
        self,
        to: NodeId,
        query: Seq<char>,
        consistency: ReadConsistency,
        timeout: Option<u64>,
    ) -> (ApiV, ClientResponseV) {
        match ApiV::plan_of(query) {
            Err(response) => (self, response),
            Ok(plan) => self.execute(to, plan, consistency, timeout),
        }
    }

    /// What is done for a request at the node `to`.
    pub open spec fn serve(self, to: NodeId, request: ClientRequestV, timeout: Option<u64>) -> (
        ApiV,
        ClientResponseV,
    ) {
        match request {
            ClientRequestV::Write(command) => self.write(to, command, timeout),
            ClientRequestV::Read { key, consistency } => self.read(to, key, consistency, timeout),
            ClientRequestV::Sql { query, read_consistency } => self.sql(
                to,
                query,
                read_consistency,
                timeout,
            ),
        }
    }

    /// What is done for an envelope: one to an address that is not known is
    /// sent back, any other is served; the response goes back to the sender.
    pub open spec fn handle(self, envelope: RequestEnvelopeV) -> (ApiV, ResponseEnvelopeV) {
        let known = address_of(self.addresses, envelope.to.node_id);
        let from = match known {
            Some(address) => address,
            None => envelope.to,
        };
        let (after, response) = if known == Some(envelope.to) {
            self.serve(envelope.to.node_id, envelope.request, envelope.timeout_ticks)
        } else {
            (
                self,
                ClientResponseV::RouteError {
                    message: "unknown destination "@ + text::decimal(envelope.to.node_id as nat)
                        + " ("@ + envelope.to.endpoint + ")"@,
                },
            )
        };
        (
            after,
            ResponseEnvelopeV {
                request_id: envelope.request_id,
                from,
                to: envelope.from,
                response,
            },
        )
    }

    /// The clock, the terms and the logs leave room for `writes` writes of
    /// `ticks` ticks each.
    pub open spec fn room_for_writes(self, writes: int, ticks: u64) -> bool {
        self.cluster.log_room(writes) && self.cluster.room(writes * ticks)
    }

    /// The log leaves room for a write at the node `to`, where it is taken; and,
    /// where it is not committed at once, the clock and the terms leave room for
    /// the time that it may wait.
    pub open spec fn room_to_write(self, to: NodeId, command: CommandV, timeout: Option<u64>) -> bool {
        to == self.cluster.leader_id && self.pending() < self.config.max_pending_entries ==> {
            &&& self.cluster.log_room(1)
            &&& match self.cluster.propose(command) {
                (after, Ok(outcome)) => outcome.committed_nodes < after.quorum() ==> after.room(
                    self.write_ticks(timeout) as int,
                ),
                _ => true,
            }
        }
    }

    /// There is room for every one of the writes of the rows from place `i` on.
    pub open spec fn room_to_write_rows(
        self,
        to: NodeId,
        rows: Seq<(Seq<char>, Seq<char>)>,
        i: nat,
        value: Option<Seq<char>>,
        timeout: Option<u64>,
    ) -> bool
        decreases rows.len() - i,
    {
        i < rows.len() ==> {
            let command = row_command(rows[i as int].0, value);
            &&& self.room_to_write(to, command, timeout)
            &&& self.write(to, command, timeout).1 is WriteCommitted ==> self.write(
                to,
                command,
                timeout,
            ).0.room_to_write_rows(to, rows, i + 1, value, timeout)
        }
    }

    /// Where a quorum does not answer the leader at once, the clock and the terms
    /// leave room for `ticks` ticks.
    pub open spec fn room_to_ask(self, to: NodeId, ticks: u64) -> bool {
        to == self.cluster.leader_id ==> match self.cluster.heartbeat_round() {
            (after, Ok(round)) => round.acknowledged_nodes < round.quorum ==> self.cluster.room(
                ticks as int,
            ),
            _ => true,
        }
    }

    /// There is room for a read: a linearizable one without a lease may have to
    /// wait for a quorum.
    pub open spec fn room_to_read(
        self,
        to: NodeId,
        consistency: ReadConsistency,
        timeout: Option<u64>,
    ) -> bool {
        consistency == ReadConsistency::Linearizable && self.drop_stale_lease().read_lease is None
            ==> self.room_to_ask(to, self.read_ticks(timeout))
    }

    /// There is room for an UPDATE or a DELETE.
    pub open spec fn room_to_mutate(
        self,
        to: NodeId,
        predicate: PredicateV,
        value: Option<Seq<char>>,
        timeout: Option<u64>,
    ) -> bool {
        to == self.cluster.leader_id ==> self.in_step_with_the_leader().room_to_write_rows(
            to,
            self.affected(predicate),
            0,
            value,
            timeout,
        )
    }

    /// There is room for a statement.
    pub open spec fn room_to_execute(
        self,
        to: NodeId,
        plan: KvExecutionPlanV,
        consistency: ReadConsistency,
        timeout: Option<u64>,
    ) -> bool {
        match plan {
            KvExecutionPlanV::Select { .. } => self.room_to_read(to, consistency, timeout),
            KvExecutionPlanV::Insert { key, value } => self.room_to_write(
                to,
                CommandV::Put { key, value },
                timeout,
            ),
            KvExecutionPlanV::Delete { predicate } => self.room_to_mutate(
                to,
                predicate,
                None,
                timeout,
            ),
            KvExecutionPlanV::Update { value, predicate } => self.room_to_mutate(
                to,
                predicate,
                Some(value),
                timeout,
            ),
        }
    }

    /// There is room for a request at the node `to`.
    pub open spec fn room_for(
        self,
        to: NodeId,
        request: ClientRequestV,
        timeout: Option<u64>,
    ) -> bool {
        match request {
            ClientRequestV::Write(command) => self.room_to_write(to, command, timeout),
            ClientRequestV::Read { consistency, .. } => self.room_to_read(
                to,
                consistency,
                timeout,
            ),
            ClientRequestV::Sql { query, read_consistency } => match ApiV::plan_of(query) {
                Err(_) => true,
                Ok(plan) => self.room_to_execute(to, plan, read_consistency, timeout),
            },
        }
    }

    /// There is room for an envelope; one to an address that is not known needs
    /// none.
    pub open spec fn room_for_envelope(self, envelope: RequestEnvelopeV) -> bool {
        address_of(self.addresses, envelope.to.node_id) == Some(envelope.to) ==> self.room_for(
            envelope.to.node_id,
            envelope.request,
            envelope.timeout_ticks,
        )
    }

    /// How many writes a request makes at the node `to`; only the leader writes,
    /// and only while not too much is pending.
    pub open spec fn writes_of(self, to: NodeId, request: ClientRequestV) -> int {
        if to != self.cluster.leader_id || self.pending() >= self.config.max_pending_entries {
            0
        } else {
            match request {
                ClientRequestV::Write(_) => 1,
                ClientRequestV::Read { .. } => 0,
                ClientRequestV::Sql { query, .. } => match ApiV::plan_of(query) {
                    Err(_) => 0,
                    Ok(KvExecutionPlanV::Select { .. }) => 0,
                    Ok(KvExecutionPlanV::Insert { .. }) => 1,
                    Ok(KvExecutionPlanV::Delete { predicate }) => self.affected(
                        predicate,
                    ).len() as int,
                    Ok(KvExecutionPlanV::Update { value, predicate }) => self.affected(
                        predicate,
                    ).len() as int,
                },
            }
        }
    }

    /// The consistency that a request reads with, where it is a read.
    pub open spec fn read_of(request: ClientRequestV) -> ReadConsistency {
        match request {
            ClientRequestV::Write(_) => ReadConsistency::Eventual,
            ClientRequestV::Read { consistency, .. } => consistency,
            ClientRequestV::Sql { query, read_consistency } => match ApiV::plan_of(query) {
                Ok(KvExecutionPlanV::Select { .. }) => read_consistency,
                _ => ReadConsistency::Eventual,
            },
        }
    }

    /// There is room for an envelope whatever the members answer: for every
    /// write to wait its whole timeout, and for a linearizable read without a
    /// lease to wait its own.
    pub open spec fn ample_room_for(self, envelope: RequestEnvelopeV) -> bool {
        let to = envelope.to.node_id;
        let timeout = envelope.timeout_ticks;
        let request = envelope.request;
        address_of(self.addresses, to) == Some(envelope.to) ==> {
            &&& to == self.cluster.leader_id && ApiV::read_of(request)
                == ReadConsistency::Linearizable && self.drop_stale_lease().read_lease is None
                ==> self.cluster.room(self.read_ticks(timeout) as int)
            &&& self.writes_of(to, request) > 0 ==> self.room_for_writes(
                self.writes_of(to, request),
                self.write_ticks(timeout),
            )
        }
    }
}

} // verus!
