//! The client interface: routing, writes, reads and statements.
use vstd::prelude::*;

use crate::api_laws;
use crate::api_model;
use crate::api_model::{ApiV, ReadLease};
use crate::api_types;
use crate::api_types::{
    default_node_address, AddressV, ClientRequest, ClientRequestV, ClientResponse, NodeAddress,
    ReadConsistency, RequestEnvelope, ResponseEnvelope, TimeoutOperation, TransportConfig,
};
use crate::mvcc;
use crate::mvcc::{MvccCatalog, Timestamp};
use crate::ordered;
use crate::ordered::OrderedMap;
use crate::raft_cluster::RaftCluster;
use crate::raft_laws;
use crate::raft_model;
use crate::raft_model::HeartbeatRoundOutcome;
use crate::sql_ast;
use crate::sql_ast::{ColumnName, KvExecutionPlan, Predicate};
use crate::sql_plan::{
    column_headers, evaluate_predicate, lower_plan_for_kv, plan_sql, project_row,
};
use crate::state_machine;
use crate::text;
use crate::text::{decimal_text, join2, join4};
use crate::types::{Command, DbError, Index, NodeId};

verus! {

/// The client interface of a cluster.
#[derive(Debug)]
pub struct ApiService {
    pub cluster: RaftCluster,
    pub addresses: Vec<NodeAddress>,
    pub config: TransportConfig,
    pub read_lease: Option<ReadLease>,
    pub mvcc: MvccCatalog,
    /// The versions show what was committed at every index from here on,
    pub mvcc_first_index: Index,
    /// through here.
    pub mvcc_last_applied_index: Index,
}

/// The views of addresses.
pub open spec fn address_views(addresses: Seq<NodeAddress>) -> Seq<AddressV> {
    Seq::new(addresses.len(), |i: int| addresses[i]@)
}

impl View for ApiService {
    type V = ApiV;

    open spec fn view(&self) -> ApiV {
        ApiV {
            cluster: self.cluster@,
            addresses: address_views(self.addresses@),
            config: self.config,
            read_lease: self.read_lease,
            mvcc: self.mvcc@,
            mvcc_first_index: self.mvcc_first_index,
            mvcc_last_applied_index: self.mvcc_last_applied_index,
        }
    }
}

/// The versions that stand for a state at a time.
fn catalog_from(state: &OrderedMap<String>, ts: Timestamp) -> (r: MvccCatalog)
    requires
        state.wf(),
    ensures
        r.wf(),
        r@ == api_model::catalog_of(state@, ts),
{
    let ghost pairs = state.pairs();
    let mut catalog = MvccCatalog::default();
    let mut i: usize = 0;
    assert(catalog@ =~= api_model::catalog_of(ordered::map_of(pairs.take(0)), ts));
    while i < state.entries.len()
        invariant
            i <= state.entries@.len(),
            pairs == state.pairs(),
            ordered::ascending(pairs),
            catalog.wf(),
            catalog@ == api_model::catalog_of(ordered::map_of(pairs.take(i as int)), ts),
        decreases state.entries@.len() - i,
    {
        let ghost before = ordered::map_of(pairs.take(i as int));
        let ghost key = pairs[i as int].0;
        proof {
            assert(pairs.take(i + 1).drop_last() =~= pairs.take(i as int));
            assert(pairs.take(i + 1).last() == pairs[i as int]);
            ordered::map_of_contains(pairs.take(i as int), key);
            if before.contains_key(key) {
                let k = choose|k: int|
                    0 <= k < pairs.take(i as int).len() && #[trigger] pairs.take(i as int)[k].0
                        == key;
                assert(text::text_lt(pairs[k].0, pairs[i as int].0));
                text::text_lt_irreflexive(key);
            }
        }
        catalog.apply_committed_put(
            state.entries[i].0.clone(),
            state.entries[i].1.clone(),
            ts,
            0,
        );
        proof {
            let value = pairs[i as int].1;
            let wanted = api_model::catalog_of(before.insert(key, value), ts);
            assert(mvcc::with_version(Seq::empty(), 0, ts, Some(value)) =~= wanted.chains[key]);
            assert(catalog@.chains =~= wanted.chains);
        }
        i += 1;
    }
    assert(pairs.take(i as int) =~= pairs);
    catalog
}

/// The rows at a time that meet the predicate, where there is one.
fn selected_rows(
    catalog: &MvccCatalog,
    read_ts: Timestamp,
    predicate: &Option<Predicate>,
) -> (r: Vec<(String, String)>)
    requires
        catalog.wf(),
    ensures
        mvcc::row_views(r@) == api_model::selected(
            catalog@.rows(read_ts),
            sql_ast::predicate_view(*predicate),
        ),
{
    let all = catalog.visible_rows(read_ts);
    let ghost views = mvcc::row_views(all@);
    let ghost wanted = sql_ast::predicate_view(*predicate);
    let mut rows: Vec<(String, String)> = Vec::new();
    let mut i: usize = 0;
    assert(mvcc::row_views(rows@) =~= api_model::selected(views.take(0), wanted));
    while i < all.len()
        invariant
            i <= all@.len(),
            views == mvcc::row_views(all@),
            wanted == sql_ast::predicate_view(*predicate),
            mvcc::row_views(rows@) == api_model::selected(views.take(i as int), wanted),
        decreases all@.len() - i,
    {
        let ghost before = mvcc::row_views(rows@);
        assert(views.take(i + 1).drop_last() =~= views.take(i as int));
        assert(views.take(i + 1).last() == views[i as int]);
        let row = &all[i];
        let keep = match predicate {
            Some(predicate) => evaluate_predicate(row.0.as_str(), row.1.as_str(), predicate),
            None => true,
        };
        if keep {
            rows.push((row.0.clone(), row.1.clone()));
            assert(mvcc::row_views(rows@) =~= before.push(views[i as int]));
        }
        i += 1;
    }
    assert(views.take(i as int) =~= views);
    rows
}

/// The response for an error of the cluster.
fn internal_error(error: &DbError) -> (r: ClientResponse)
    ensures
        r@ == api_model::internal_error(error@),
{
    ClientResponse::InternalError { message: error.to_string() }
}

/// Where a read finds its time, the asked node is a member.
proof fn read_places(a: ApiV, to: NodeId, consistency: ReadConsistency, timeout: Option<u64>)
    requires
        a.cluster.wf(),
        a.room_to_read(to, consistency, timeout),
        a.read_time(to, consistency, timeout).1 is Ok,
    ensures
        raft_model::has_member(a.read_time(to, consistency, timeout).0.cluster.nodes, to),
{
    api_laws::reads_find_their_time(a, to, consistency, timeout);
}

impl ApiService {
    /// The cluster and the versions are valid.
    pub open spec fn wf(&self) -> bool {
        self.cluster.wf() && self.mvcc.wf()
    }

    /// An interface with the default configuration.
    pub fn new(cluster: RaftCluster) -> (r: Self)
        requires
            cluster.wf(),
        ensures
            r.wf(),
            r.cluster == cluster,
            r@ == ApiV::opened(cluster@, api_types::default_config()),
    {
        Self::with_config(cluster, TransportConfig::default())
    }

    /// An interface to a cluster.
    pub fn with_config(cluster: RaftCluster, config: TransportConfig) -> (r: Self)
        requires
            cluster.wf(),
        ensures
            r.wf(),
            r.cluster == cluster,
            r@ == ApiV::opened(cluster@, config),
    {
        let config = Self::harden_transport_config(&cluster, config);
        let ids = cluster.node_ids();
        let mut addresses: Vec<NodeAddress> = Vec::new();
        let mut i: usize = 0;
        while i < ids.len()
            invariant
                i <= ids@.len(),
                addresses@.len() == i,
                forall|k: int|
                    0 <= k < i ==> (#[trigger] addresses@[k])@ == api_types::default_address(
                        ids@[k],
                    ),
            decreases ids@.len() - i,
        {
            addresses.push(default_node_address(ids[i]));
            i += 1;
        }
        let (mvcc, mvcc_last_applied_index) = Self::bootstrap_mvcc_from_cluster(&cluster);
        let r = ApiService {
            cluster,
            addresses,
            config,
            read_lease: None,
            mvcc,
            mvcc_first_index: mvcc_last_applied_index,
            mvcc_last_applied_index,
        };
        assert(r@ =~= ApiV::opened(r.cluster@, config));
        assert(r@.addresses =~= ApiV::opened(r.cluster@, config).addresses);
        r
    }

    pub fn cluster(&self) -> (r: &RaftCluster)
        ensures
            *r == self.cluster,
    {
        &self.cluster
    }

    pub fn cluster_mut(&mut self) -> (r: &mut RaftCluster)
        ensures
            *r == old(self).cluster,
            *final(self) == (ApiService { cluster: *final(r), ..*old(self) }),
    {
        &mut self.cluster
    }

    /// The address of a node.
    pub fn address_for(&self, node_id: NodeId) -> (r: Option<&NodeAddress>)
        ensures
            match api_model::address_of(self@.addresses, node_id) {
                Some(address) => r matches Some(found) && found@ == address,
                None => r is None,
            },
    {
        let ghost all = self@.addresses;
        let mut i: usize = 0;
        assert(all.skip(0) =~= all);
        while i < self.addresses.len()
            invariant
                i <= self.addresses@.len(),
                all == self@.addresses,
                api_model::address_of(all, node_id) == api_model::address_of(
                    all.skip(i as int),
                    node_id,
                ),
            decreases self.addresses@.len() - i,
        {
            assert(all.skip(i as int)[0] == self.addresses@[i as int]@);
            assert(all.skip(i as int).skip(1) =~= all.skip(i + 1));
            if self.addresses[i].node_id == node_id {
                return Some(&self.addresses[i]);
            }
            i += 1;
        }
        None
    }

    /// The address of the leader.
    pub fn leader_address(&self) -> (r: NodeAddress)
        ensures
            r@ == self@.leader_address(),
    {
        match self.address_for(self.cluster.leader_id()) {
            Some(address) => address.clone(),
            None => default_node_address(self.cluster.leader_id()),
        }
    }

    fn is_known_address(&self, destination: &NodeAddress) -> (r: bool)
        ensures
            r == (api_model::address_of(self@.addresses, destination.node_id) == Some(
                destination@,
            )),
    {
        match self.address_for(destination.node_id) {
            Some(known) => known.same_as(destination),
            None => false,
        }
    }

    fn bootstrap_mvcc_from_cluster(cluster: &RaftCluster) -> (r: (MvccCatalog, Index))
        requires
            cluster.wf(),
        ensures
            r.0.wf(),
            r.0@ == api_model::catalog_of(cluster@.nodes[cluster@.leader_at()].state, 0),
            r.1 == cluster@.nodes[cluster@.leader_at()].commit_index,
    {
        match cluster.node(cluster.leader_id()) {
            Ok(leader) => (catalog_from(&leader.snapshot(), 0), leader.commit_index()),
            Err(_) => (MvccCatalog::default(), 0),
        }
    }

    /// Keeps leases shorter than any election timeout, so that a leader that
    /// lost its office cannot go on answering on old evidence.
    fn harden_transport_config(cluster: &RaftCluster, config: TransportConfig) -> (r:
        TransportConfig)
        ensures
            r == api_model::hardened(config),
    {
        let safe_lease_cap: u64 = cluster.min_election_timeout_ticks().saturating_sub(1);
        let mut config = config;
        if config.read_lease_ticks > safe_lease_cap {
            config.read_lease_ticks = safe_lease_cap;
        }
        config
    }

    fn quorum_size(&self) -> (r: usize)
        requires
            self.cluster.wf(),
        ensures
            r == self@.cluster.quorum(),
    {
        self.cluster.quorum_size()
    }

    fn proposal_timeout(&self, requested_timeout: Option<u64>) -> (r: u64)
        ensures
            r == self@.write_ticks(requested_timeout),
    {
        match requested_timeout {
            Some(ticks) => ticks,
            None => self.config.proposal_timeout_ticks,
        }
    }

    fn read_timeout(&self, requested_timeout: Option<u64>) -> (r: u64)
        ensures
            r == self@.read_ticks(requested_timeout),
    {
        match requested_timeout {
            Some(ticks) => ticks,
            None => self.config.read_timeout_ticks,
        }
    }

    fn committed_nodes_at(&self, index: Index) -> (r: usize)
        ensures
            r == raft_model::count_reaching(raft_model::commits(self@.cluster.nodes), index),
    {
        self.cluster.count_committed(index)
    }

    fn pending_entries(&self) -> (r: u64)
        requires
            self.cluster.wf(),
        ensures
            r == self@.pending(),
    {
        match self.cluster.node(self.cluster.leader_id()) {
            Ok(leader) => leader.last_index().saturating_sub(leader.commit_index()),
            Err(_) => 0,
        }
    }

    fn invalidate_stale_read_lease(&mut self)
        requires
            old(self).wf(),
        ensures
            final(self).wf(),
            final(self)@ == old(self)@.drop_stale_lease(),
            final(self).cluster == old(self).cluster,
    {
        if !self.holds_read_lease() {
            self.read_lease = None;
        }
    }

    /// Whether there is a lease that still holds.
    fn holds_read_lease(&self) -> (r: bool)
        requires
            self.wf(),
        ensures
            r == self@.drop_stale_lease().read_lease is Some,
    {
        if let Some(lease) = self.read_lease {
            let now: u64 = self.cluster.clock_ticks();
            lease.leader_id == self.cluster.leader_id() && lease.term
                == self.cluster.current_term() && lease.acknowledged_nodes >= self.quorum_size()
                && now >= lease.issued_at_tick && now <= lease.expires_at_tick
        } else {
            false
        }
    }

    /// The lease, where it still holds; one that does not is dropped.
    pub fn active_read_lease(&mut self) -> (r: Option<ReadLease>)
        requires
            old(self).wf(),
        ensures
            final(self).wf(),
            final(self)@ == old(self)@.drop_stale_lease(),
            r == final(self)@.read_lease,
    {
        self.invalidate_stale_read_lease();
        self.read_lease
    }

    fn record_read_lease(&mut self, heartbeat: HeartbeatRoundOutcome)
        requires
            old(self).wf(),
        ensures
            final(self).wf(),
            final(self)@ == old(self)@.record_lease(heartbeat),
    {
        if self.config.read_lease_ticks == 0 || heartbeat.acknowledged_nodes < heartbeat.quorum {
            self.read_lease = None;
            return ;
        }
        let issued_at_tick: u64 = self.cluster.clock_ticks();
        let expires_at_tick: u64 = self.cluster.clock_ticks().saturating_add(
            self.config.read_lease_ticks,
        );
        self.read_lease =
        Some(
            ReadLease {
                leader_id: heartbeat.leader_id,
                term: heartbeat.term,
                issued_at_tick,
                expires_at_tick,
                acknowledged_nodes: heartbeat.acknowledged_nodes,
            },
        );
    }

    /// Turns a committed command into a version at its index.
    fn apply_mvcc_committed_command(&mut self, command: &Command, committed_index: Index)
        requires
            old(self).wf(),
        ensures
            final(self).wf(),
            final(self)@ == (ApiV {
                mvcc: old(self)@.mvcc.committed(
                    state_machine::key_of(command@),
                    api_model::written_value(command@),
                    committed_index,
                    committed_index,
                ),
                ..old(self)@
            }),
    {
        match command {
            Command::Put { key, value } => {
                self.mvcc.apply_committed_put(
                    key.clone(),
                    value.clone(),
                    committed_index,
                    committed_index,
                );
            },
            Command::Delete { key } => {
                self.mvcc.apply_committed_delete(key.clone(), committed_index, committed_index);
            },
        }
    }

    /// Turns the entries of the leader's log after what was noted before,
    /// through an index, into versions.
    fn note_entries(&mut self, index: Index)
        requires
            old(self).wf(),
            ({
                let log = old(self)@.cluster.nodes[old(self)@.cluster.leader_at()].log;
                log.base_index <= old(self)@.mvcc_last_applied_index < index <= log.last_index()
            }),
        ensures
            final(self).wf(),
            final(self)@ == old(self)@.note_commits(index),
    {
        let ghost a = self@;
        let ghost log = a.cluster.nodes[a.cluster.leader_at()].log;
        let ghost from = a.mvcc_last_applied_index - log.base_index;
        proof {
            raft_laws::leader_has_place(a.cluster);
            assert(a.cluster.member_ok(a.cluster.leader_at()));
            assert(log.last_index() == log.base_index + log.entries.len());
            assert(log.entries.subrange(from, from) =~= Seq::empty());
        }
        let leader_id: u64 = self.cluster.leader_id();
        while self.mvcc_last_applied_index < index
            invariant
                self.wf(),
                leader_id == a.cluster.leader_id,
                raft_model::has_member(a.cluster.nodes, leader_id),
                log == a.cluster.nodes[a.cluster.leader_at()].log,
                log.last_index() == log.base_index + log.entries.len(),
                from == a.mvcc_last_applied_index - log.base_index,
                0 <= from,
                a.mvcc_last_applied_index <= self.mvcc_last_applied_index <= index
                    <= log.last_index(),
                log.wf(),
                self@ == (ApiV {
                    mvcc: api_model::noted(
                        a.mvcc,
                        log.entries.subrange(
                            from,
                            self.mvcc_last_applied_index - log.base_index,
                        ),
                    ),
                    mvcc_last_applied_index: self.mvcc_last_applied_index,
                    ..a
                }),
            decreases index - self.mvcc_last_applied_index,
        {
            let next: u64 = self.mvcc_last_applied_index + 1;
            let command: Command = match self.cluster.node(leader_id) {
                Ok(node) => match node.entry(next) {
                    Some(entry) => entry.command.clone(),
                    None => {
                        assert(false);
                        return;
                    },
                },
                Err(_) => {
                    assert(false);
                    return;
                },
            };
            proof {
                let done = log.entries.subrange(from, next - 1 - log.base_index);
                let more = log.entries.subrange(from, next - log.base_index);
                assert(more.drop_last() =~= done);
                assert(more.last() == log.entries[next - 1 - log.base_index]);
                assert(log.get(next) == Some(more.last()));
                assert(more.last().index == next);
            }
            self.apply_mvcc_committed_command(&command, next);
            self.mvcc_last_applied_index = next;
        }
    }

    /// Turns everything committed through an index into versions.
    fn note_commits(&mut self, index: Index)
        requires
            old(self).wf(),
        ensures
            final(self).wf(),
            final(self)@ == old(self)@.note_commits(index),
    {
        if index <= self.mvcc_last_applied_index {
            return ;
        }
        proof {
            raft_laws::leader_has_place(self@.cluster);
        }
        let leader_id: u64 = self.cluster.leader_id();
        if let Ok(node) = self.cluster.node(leader_id) {
            let base: u64 = node.log_base_index();
            let last: u64 = node.last_index();
            if base <= self.mvcc_last_applied_index && index <= last {
                self.note_entries(index);
            } else {
                self.rebuild_mvcc_from_leader_snapshot();
            }
        }
    }

    fn rebuild_mvcc_from_leader_snapshot(&mut self)
        requires
            old(self).wf(),
        ensures
            final(self).wf(),
            final(self)@ == old(self)@.restated(old(self)@.cluster.leader_at()),
    {
        proof {
            raft_laws::leader_has_place(self@.cluster);
        }
        let leader_id: u64 = self.cluster.leader_id();
        self.rebuild_mvcc_from(leader_id);
    }

    /// Makes versions of what a member has committed.
    fn rebuild_mvcc_from(&mut self, node_id: NodeId)
        requires
            old(self).wf(),
            raft_model::has_member(old(self)@.cluster.nodes, node_id),
        ensures
            final(self).wf(),
            final(self)@ == old(self)@.restated(
                raft_model::position(old(self)@.cluster.nodes, node_id),
            ),
    {
        if let Ok(node) = self.cluster.node(node_id) {
            let timestamp: u64 = node.commit_index();
            let state = node.snapshot();
            self.mvcc = catalog_from(&state, timestamp);
            self.mvcc_first_index = timestamp;
            self.mvcc_last_applied_index = timestamp;
        }
    }

    /// Makes the versions show what a member has committed, where they do not.
    fn ensure_mvcc_through(&mut self, node_id: NodeId)
        requires
            old(self).wf(),
            raft_model::has_member(old(self)@.cluster.nodes, node_id),
        ensures
            final(self).wf(),
            final(self)@ == old(self)@.versions_for(node_id),
    {
        let commit: u64 = match self.cluster.node(node_id) {
            Ok(node) => node.commit_index(),
            Err(_) => {
                return ;
            },
        };
        if commit < self.mvcc_first_index || commit > self.mvcc_last_applied_index {
            self.rebuild_mvcc_from(node_id);
        }
    }

    /// The commit index of a member.
    fn commit_index_of(&self, node_id: NodeId) -> (r: Result<Timestamp, ClientResponse>)
        requires
            self.wf(),
        ensures
            match self@.commit_of(node_id) {
                Ok(ts) => r == Ok::<Timestamp, ClientResponse>(ts),
                Err(response) => r matches Err(found) && found@ == response,
            },
    {
        match self.cluster.node(node_id) {
            Ok(node) => Ok(node.commit_index()),
            Err(error) => Err(internal_error(&error)),
        }
    }

    fn redirect(&self) -> (r: ClientResponse)
        ensures
            r@ == self@.redirect(),
    {
        ClientResponse::Redirect { leader: self.leader_address() }
    }

    /// Ticks until a quorum has committed an index, or the time is up.
    fn await_commit(&mut self, index: Index, timeout: u64, first_observed: usize) -> (r:
        ClientResponse)
        requires
            old(self).wf(),
            old(self)@.cluster.room(timeout as int),
        ensures
            final(self).wf(),
            final(self)@ == old(self)@.await_commit(index, timeout as nat, first_observed).0,
            r@ == old(self)@.await_commit(index, timeout as nat, first_observed).1,
    {
        let ghost a = self@;
        let mut committed_nodes: usize = first_observed;
        let mut done: u64 = 0;
        while done < timeout
            invariant
                done <= timeout,
                self.wf(),
                self@.cluster.room(timeout - done),
                a == old(self)@,
                a.await_commit(index, timeout as nat, first_observed) == self@.await_commit(
                    index,
                    (timeout - done) as nat,
                    committed_nodes,
                ),
            decreases timeout - done,
        {
            let ghost b = self@;
            proof {
                raft_laws::ticking_takes_room(b.cluster, timeout - done);
            }
            let ticked = self.cluster.tick();
            assert(self@ =~= b.with_cluster(b.cluster.tick().0));
            if let Err(error) = ticked {
                return internal_error(&error);
            }
            committed_nodes = self.committed_nodes_at(index);
            let quorum: usize = self.quorum_size();
            if committed_nodes >= quorum {
                self.note_commits(index);
                return ClientResponse::WriteCommitted { index, committed_nodes };
            }
            done += 1;
        }
        ClientResponse::TimedOut {
            operation: TimeoutOperation::Proposal,
            index: Some(index),
            observed_nodes: committed_nodes,
        }
    }

    fn handle_write(
        &mut self,
        destination_node_id: NodeId,
        command: Command,
        timeout_ticks: Option<u64>,
    ) -> (r: ClientResponse)
        requires
            old(self).wf(),
            old(self)@.room_to_write(destination_node_id, command@, timeout_ticks),
        ensures
            final(self).wf(),
            final(self)@ == old(self)@.write(destination_node_id, command@, timeout_ticks).0,
            r@ == old(self)@.write(destination_node_id, command@, timeout_ticks).1,
    {
        proof {
            reveal(ApiV::write);
        }
        self.invalidate_stale_read_lease();
        if destination_node_id != self.cluster.leader_id() {
            return self.redirect();
        }
        let pending_entries: u64 = self.pending_entries();
        if pending_entries >= self.config.max_pending_entries {
            return ClientResponse::Overloaded {
                pending_entries,
                limit: self.config.max_pending_entries,
            };
        }
        let ghost b = self@;
        proof {
            raft_laws::proposing_takes_room(b.cluster, command@, 1);
        }
        let ghost asked = command@;
        let proposed = self.cluster.propose(command);
        assert(self@ =~= b.with_cluster(b.cluster.propose(asked).0));
        let proposal = match proposed {
            Ok(outcome) => outcome,
            Err(error) => {
                return internal_error(&error);
            },
        };
        let quorum: usize = self.quorum_size();
        if proposal.committed_nodes >= quorum {
            self.note_commits(proposal.index);
            return ClientResponse::WriteCommitted {
                index: proposal.index,
                committed_nodes: proposal.committed_nodes,
            };
        }
        let timeout: u64 = self.proposal_timeout(timeout_ticks);
        self.await_commit(proposal.index, timeout, proposal.committed_nodes)
    }

    /// Rounds of heartbeats, a tick apart, until a quorum answers the leader.
    fn await_quorum(&mut self, destination_node_id: NodeId, timeout: u64) -> (r: Result<
        NodeId,
        ClientResponse,
    >)
        requires
            old(self).wf(),
            old(self)@.room_to_ask(destination_node_id, timeout),
        ensures
            final(self).wf(),
            final(self)@ == old(self)@.await_quorum(destination_node_id, timeout as nat).0,
            match old(self)@.await_quorum(destination_node_id, timeout as nat).1 {
                Ok(leader) => r == Ok::<NodeId, ClientResponse>(leader),
                Err(response) => r matches Err(found) && found@ == response,
            },
    {
        let ghost a = self@;
        let mut remaining: u64 = timeout;
        loop
            invariant
                self.wf(),
                self@.room_to_ask(destination_node_id, remaining),
                a == old(self)@,
                a.await_quorum(destination_node_id, timeout as nat) == self@.await_quorum(
                    destination_node_id,
                    remaining as nat,
                ),
            decreases remaining,
        {
            let ghost b = self@;
            if destination_node_id != self.cluster.leader_id() {
                return Err(self.redirect());
            }
            proof {
                raft_laws::heartbeats_take_no_room(b.cluster);
            }
            let round = self.cluster.heartbeat_round();
            let ghost asked = b.with_cluster(b.cluster.heartbeat_round().0);
            assert(self@ =~= asked);
            let heartbeat = match round {
                Ok(heartbeat) => heartbeat,
                Err(error) => {
                    return Err(internal_error(&error));
                },
            };
            if heartbeat.acknowledged_nodes >= heartbeat.quorum {
                self.record_read_lease(heartbeat);
                return Ok(heartbeat.leader_id);
            }
            if remaining == 0 {
                return Err(
                    ClientResponse::TimedOut {
                        operation: TimeoutOperation::LinearizableRead,
                        index: None,
                        observed_nodes: heartbeat.acknowledged_nodes,
                    },
                );
            }
            proof {
                assert(b.cluster.room(remaining as int));
                assert(asked.cluster.room(remaining as int));
                raft_laws::ticking_takes_room(asked.cluster, remaining as int);
            }
            let ticked = self.cluster.tick();
            assert(self@ =~= asked.with_cluster(asked.cluster.tick().0));
            if let Err(error) = ticked {
                return Err(internal_error(&error));
            }
            self.invalidate_stale_read_lease();
            remaining -= 1;
        }
    }

    fn ensure_linearizable_read_lease(
        &mut self,
        destination_node_id: NodeId,
        timeout_ticks: Option<u64>,
    ) -> (r: Result<NodeId, ClientResponse>)
        requires
            old(self).wf(),
            old(self)@.room_to_read(
                destination_node_id,
                ReadConsistency::Linearizable,
                timeout_ticks,
            ),
        ensures
            final(self).wf(),
            final(self)@ == old(self)@.ensure_lease(destination_node_id, timeout_ticks).0,
            match old(self)@.ensure_lease(destination_node_id, timeout_ticks).1 {
                Ok(leader) => r == Ok::<NodeId, ClientResponse>(leader),
                Err(response) => r matches Err(found) && found@ == response,
            },
    {
        proof {
            reveal(ApiV::ensure_lease);
        }
        if destination_node_id != self.cluster.leader_id() {
            return Err(self.redirect());
        }
        if let Some(lease) = self.active_read_lease() {
            return Ok(lease.leader_id);
        }
        let timeout: u64 = self.read_timeout(timeout_ticks);
        self.await_quorum(destination_node_id, timeout)
    }

    fn read_timestamp_for_request(
        &mut self,
        destination_node_id: NodeId,
        consistency: ReadConsistency,
        timeout_ticks: Option<u64>,
    ) -> (r: Result<Timestamp, ClientResponse>)
        requires
            old(self).wf(),
            old(self)@.room_to_read(destination_node_id, consistency, timeout_ticks),
        ensures
            final(self).wf(),
            final(self)@ == old(self)@.read_time(
                destination_node_id,
                consistency,
                timeout_ticks,
            ).0,
            match old(self)@.read_time(destination_node_id, consistency, timeout_ticks).1 {
                Ok(ts) => r == Ok::<Timestamp, ClientResponse>(ts),
                Err(response) => r matches Err(found) && found@ == response,
            },
    {
        match consistency {
            ReadConsistency::Eventual => self.commit_index_of(destination_node_id),
            ReadConsistency::Linearizable => {
                match self.ensure_linearizable_read_lease(destination_node_id, timeout_ticks) {
                    Ok(leader_id) => self.commit_index_of(leader_id),
                    Err(response) => Err(response),
                }
            },
        }
    }

    fn handle_read(
        &mut self,
        destination_node_id: NodeId,
        key: String,
        consistency: ReadConsistency,
        timeout_ticks: Option<u64>,
    ) -> (r: ClientResponse)
        requires
            old(self).wf(),
            old(self)@.room_to_read(destination_node_id, consistency, timeout_ticks),
        ensures
            final(self).wf(),
            final(self)@ == old(self)@.read(
                destination_node_id,
                key@,
                consistency,
                timeout_ticks,
            ).0,
            r@ == old(self)@.read(destination_node_id, key@, consistency, timeout_ticks).1,
    {
        let read_ts: u64 = match self.read_timestamp_for_request(
            destination_node_id,
            consistency,
            timeout_ticks,
        ) {
            Ok(read_ts) => read_ts,
            Err(response) => {
                return response;
            },
        };
        proof {
            read_places(old(self)@, destination_node_id, consistency, timeout_ticks);
        }
        self.ensure_mvcc_through(destination_node_id);
        let value = match self.mvcc.read_visible(key.as_str(), read_ts) {
            Some(value) => Some(value.to_owned()),
            None => None,
        };
        ClientResponse::ReadResult { value, consistency }
    }

    fn execute_sql_select(
        &mut self,
        destination_node_id: NodeId,
        columns: Vec<ColumnName>,
        predicate: Option<Predicate>,
        read_consistency: ReadConsistency,
        timeout_ticks: Option<u64>,
    ) -> (r: ClientResponse)
        requires
            old(self).wf(),
            old(self)@.room_to_read(destination_node_id, read_consistency, timeout_ticks),
        ensures
            final(self).wf(),
            ({
                let (after, response) = old(self)@.select(
                    destination_node_id,
                    columns@,
                    sql_ast::predicate_view(predicate),
                    read_consistency,
                    timeout_ticks,
                );
                final(self)@ == after && r@ == response
            }),
    {
        let read_ts: u64 = match self.read_timestamp_for_request(
            destination_node_id,
            read_consistency,
            timeout_ticks,
        ) {
            Ok(read_ts) => read_ts,
            Err(response) => {
                return response;
            },
        };
        proof {
            read_places(old(self)@, destination_node_id, read_consistency, timeout_ticks);
        }
        self.ensure_mvcc_through(destination_node_id);
        let found = selected_rows(&self.mvcc, read_ts, &predicate);
        let ghost views = mvcc::row_views(found@);
        let mut rows: Vec<Vec<String>> = Vec::new();
        let mut i: usize = 0;
        while i < found.len()
            invariant
                i <= found@.len(),
                views == mvcc::row_views(found@),
                rows@.len() == i,
                forall|k: int|
                    0 <= k < i ==> text::texts((#[trigger] rows@[k])@)
                        == api_model::projections(views, columns@)[k],
            decreases found@.len() - i,
        {
            rows.push(
                project_row(found[i].0.as_str(), found[i].1.as_str(), columns.as_slice()),
            );
            i += 1;
        }
        assert(api_types::rows_view(rows@) =~= api_model::projections(views, columns@));
        ClientResponse::SqlRows {
            columns: column_headers(columns.as_slice()),
            rows,
            consistency: read_consistency,
        }
    }

    fn execute_sql_single_write(
        &mut self,
        destination_node_id: NodeId,
        command: Command,
        timeout_ticks: Option<u64>,
    ) -> (r: ClientResponse)
        requires
            old(self).wf(),
            old(self)@.room_to_write(destination_node_id, command@, timeout_ticks),
        ensures
            final(self).wf(),
            final(self)@ == old(self)@.insert(destination_node_id, command@, timeout_ticks).0,
            r@ == old(self)@.insert(destination_node_id, command@, timeout_ticks).1,
    {
        match self.handle_write(destination_node_id, command, timeout_ticks) {
            ClientResponse::WriteCommitted { index, committed_nodes } =>
                ClientResponse::SqlWriteResult {
                affected_rows: 1,
                last_index: Some(index),
                committed_nodes,
            },
            other => other,
        }
    }

    fn execute_sql_predicate_mutation(
        &mut self,
        destination_node_id: NodeId,
        predicate: Predicate,
        updated_value: Option<String>,
        timeout_ticks: Option<u64>,
    ) -> (r: ClientResponse)
        requires
            old(self).wf(),
            old(self)@.room_to_mutate(
                destination_node_id,
                predicate@,
                mvcc::text_view(updated_value),
                timeout_ticks,
            ),
        ensures
            final(self).wf(),
            ({
                let (after, response) = old(self)@.mutate(
                    destination_node_id,
                    predicate@,
                    mvcc::text_view(updated_value),
                    timeout_ticks,
                );
                final(self)@ == after && r@ == response
            }),
    {
        let ghost a = self@;
        let ghost value = mvcc::text_view(updated_value);
        let leader_id: u64 = self.cluster.leader_id();
        if destination_node_id != leader_id {
            return self.redirect();
        }
        let leader_commit_index: u64 = match self.cluster.node(leader_id) {
            Ok(node) => node.commit_index(),
            Err(error) => {
                return internal_error(&error);
            },
        };
        self.ensure_mvcc_through(leader_id);
        let wanted = Some(predicate);
        let rows = selected_rows(&self.mvcc, leader_commit_index, &wanted);
        let ghost views = mvcc::row_views(rows@);
        assert(views == a.affected(predicate@));
        let mut affected_rows: usize = 0;
        let mut last_index: Option<Index> = None;
        let mut committed_nodes: usize = 0;
        while affected_rows < rows.len()
            invariant
                affected_rows <= rows@.len(),
                self.wf(),
                views == mvcc::row_views(rows@),
                value == mvcc::text_view(updated_value),
                self@.room_to_write_rows(
                    leader_id,
                    views,
                    affected_rows as nat,
                    value,
                    timeout_ticks,
                ),
                a == old(self)@,
                leader_id == destination_node_id,
                a.mutate(destination_node_id, predicate@, value, timeout_ticks)
                    == self@.write_rows(
                    leader_id,
                    views,
                    affected_rows as nat,
                    value,
                    timeout_ticks,
                    last_index,
                    committed_nodes,
                ),
            decreases rows@.len() - affected_rows,
        {
            let key = rows[affected_rows].0.clone();
            let command = match &updated_value {
                Some(value) => Command::Put { key, value: value.clone() },
                None => Command::Delete { key },
            };
            assert(command@ == api_model::row_command(views[affected_rows as int].0, value));
            match self.handle_write(leader_id, command, timeout_ticks) {
                ClientResponse::WriteCommitted { index, committed_nodes: committed } => {
                    affected_rows += 1;
                    last_index = Some(index);
                    committed_nodes = committed;
                },
                other => {
                    return other;
                },
            }
        }
        ClientResponse::SqlWriteResult { affected_rows, last_index, committed_nodes }
    }

    /// The execution plan of a query, or the response that refuses it.
    fn plan_query(query: &str) -> (r: Result<KvExecutionPlan, ClientResponse>)
        ensures
            match ApiV::plan_of(query@) {
                Ok(plan) => r matches Ok(found) && found@ == plan,
                Err(response) => r matches Err(found) && found@ == response,
            },
    {
        let logical_plan = match plan_sql(query) {
            Ok(plan) => plan,
            Err(error) => {
                return Err(ClientResponse::InvalidQuery { message: error.to_string() });
            },
        };
        match lower_plan_for_kv(&logical_plan) {
            Ok(plan) => Ok(plan),
            Err(error) => Err(ClientResponse::InvalidQuery { message: error.to_string() }),
        }
    }

    fn handle_sql(
        &mut self,
        destination_node_id: NodeId,
        query: String,
        read_consistency: ReadConsistency,
        timeout_ticks: Option<u64>,
    ) -> (r: ClientResponse)
        requires
            old(self).wf(),
            old(self)@.room_for(
                destination_node_id,
                ClientRequestV::Sql { query: query@, read_consistency },
                timeout_ticks,
            ),
        ensures
            final(self).wf(),
            final(self)@ == old(self)@.sql(
                destination_node_id,
                query@,
                read_consistency,
                timeout_ticks,
            ).0,
            r@ == old(self)@.sql(destination_node_id, query@, read_consistency, timeout_ticks).1,
    {
        let execution_plan = match Self::plan_query(query.as_str()) {
            Ok(plan) => plan,
            Err(response) => {
                return response;
            },
        };
        match execution_plan {
            KvExecutionPlan::Select { columns, predicate } => self.execute_sql_select(
                destination_node_id,
                columns,
                predicate,
                read_consistency,
                timeout_ticks,
            ),
            KvExecutionPlan::Insert { key, value } => self.execute_sql_single_write(
                destination_node_id,
                Command::Put { key, value },
                timeout_ticks,
            ),
            KvExecutionPlan::Delete { predicate } => self.execute_sql_predicate_mutation(
                destination_node_id,
                predicate,
                None,
                timeout_ticks,
            ),
            KvExecutionPlan::Update { value, predicate } => self.execute_sql_predicate_mutation(
                destination_node_id,
                predicate,
                Some(value),
                timeout_ticks,
            ),
        }
    }

    /// How many rows an UPDATE or DELETE is about.
    fn affected_rows(&self, predicate: Predicate) -> (r: usize)
        requires
            self.wf(),
        ensures
            r == self@.affected(predicate@).len(),
    {
        let leader_commit_index: u64 = match self.cluster.node(self.cluster.leader_id()) {
            Ok(node) => node.commit_index(),
            Err(_) => 0,
        };
        let wanted = Some(predicate);
        if leader_commit_index < self.mvcc_first_index || leader_commit_index
            > self.mvcc_last_applied_index {
            match self.cluster.leader_snapshot() {
                Ok(state) => {
                    let rebuilt = catalog_from(&state, leader_commit_index);
                    selected_rows(&rebuilt, leader_commit_index, &wanted).len()
                },
                Err(_) => 0,
            }
        } else {
            selected_rows(&self.mvcc, leader_commit_index, &wanted).len()
        }
    }

    /// Whether there is room for a request whatever the members answer.
    pub fn has_room_for(&self, envelope: &RequestEnvelope) -> (r: bool)
        requires
            self.wf(),
        ensures
            r == self@.ample_room_for(envelope@),
    {
        if !self.is_known_address(&envelope.to) {
            return true;
        }
        if envelope.to.node_id != self.cluster.leader_id() {
            return true;
        }
        let mut writes: usize = 0;
        let mut consistency = ReadConsistency::Eventual;
        match &envelope.request {
            ClientRequest::Write(_) => {
                writes = 1;
            },
            ClientRequest::Read { key: _, consistency: asked } => {
                consistency = *asked;
            },
            ClientRequest::Sql { query, read_consistency } => {
                match Self::plan_query(query.as_str()) {
                    Err(_) => {},
                    Ok(KvExecutionPlan::Select { .. }) => {
                        consistency = *read_consistency;
                    },
                    Ok(KvExecutionPlan::Insert { .. }) => {
                        writes = 1;
                    },
                    Ok(KvExecutionPlan::Delete { predicate }) => {
                        writes = self.affected_rows(predicate);
                    },
                    Ok(KvExecutionPlan::Update { value: _, predicate }) => {
                        writes = self.affected_rows(predicate);
                    },
                }
            },
        }
        if self.pending_entries() >= self.config.max_pending_entries {
            writes = 0;
        }
        assert(writes == self@.writes_of(envelope@.to.node_id, envelope@.request));
        assert(consistency == ApiV::read_of(envelope@.request));
        if consistency == ReadConsistency::Linearizable && !self.holds_read_lease() {
            let ticks: u64 = self.read_timeout(envelope.timeout_ticks);
            if !self.cluster.has_room(ticks as u128) {
                return false;
            }
        }
        if writes > 0 {
            let ticks: u64 = self.proposal_timeout(envelope.timeout_ticks);
            proof {
                let w = writes as int;
                let t = ticks as int;
                assert(0 <= w * t <= u64::MAX * u64::MAX) by (nonlinear_arith)
                    requires
                        0 <= w <= u64::MAX,
                        0 <= t <= u64::MAX,
                ;
            }
            let all: u128 = (writes as u128) * (ticks as u128);
            self.cluster.has_log_room(writes as u128) && self.cluster.has_room(all)
        } else {
            true
        }
    }

    /// Serves a request.
    pub fn handle(&mut self, envelope: RequestEnvelope) -> (r: ResponseEnvelope)
        requires
            old(self).wf(),
            old(self)@.room_for_envelope(envelope@),
        ensures
            final(self).wf(),
            final(self)@ == old(self)@.handle(envelope@).0,
            r@ == old(self)@.handle(envelope@).1,
    {
        let from = match self.address_for(envelope.to.node_id) {
            Some(address) => address.clone(),
            None => envelope.to.clone(),
        };
        if !self.is_known_address(&envelope.to) {
            let number = decimal_text(envelope.to.node_id as u128);
            let head = join4(
                "unknown destination ",
                number.as_str(),
                " (",
                envelope.to.endpoint.as_str(),
            );
            return ResponseEnvelope {
                request_id: envelope.request_id,
                from,
                to: envelope.from,
                response: ClientResponse::RouteError { message: join2(head.as_str(), ")") },
            };
        }
        let response = match envelope.request {
            ClientRequest::Write(command) => self.handle_write(
                envelope.to.node_id,
                command,
                envelope.timeout_ticks,
            ),
            ClientRequest::Read { key, consistency } => self.handle_read(
                envelope.to.node_id,
                key,
                consistency,
                envelope.timeout_ticks,
            ),
            ClientRequest::Sql { query, read_consistency } => self.handle_sql(
                envelope.to.node_id,
                query,
                read_consistency,
                envelope.timeout_ticks,
            ),
        };
        ResponseEnvelope { request_id: envelope.request_id, from, to: envelope.from, response }
    }

    /// Serves a request where there is room for it whatever the members answer.
    pub fn try_handle(&mut self, envelope: RequestEnvelope) -> (r: Option<ResponseEnvelope>)
        requires
            old(self).wf(),
        ensures
            final(self).wf(),
            if old(self)@.ample_room_for(envelope@) {
                &&& final(self)@ == old(self)@.handle(envelope@).0
                &&& r matches Some(response) && response@ == old(self)@.handle(envelope@).1
            } else {
                r is None && *final(self) == *old(self)
            },
    {
        if self.has_room_for(&envelope) {
            proof {
                api_laws::ample_room_suffices(self@, envelope@);
            }
            Some(self.handle(envelope))
        } else {
            None
        }
    }
}

} // verus!
