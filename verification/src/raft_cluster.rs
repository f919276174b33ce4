//! A cluster of members under one leader.
use vstd::prelude::*;

use crate::ordered::OrderedMap;
use crate::raft_laws;
use crate::raft_model;
use crate::raft_model::{ClusterV, ElectionOutcome, HeartbeatRoundOutcome, ProposalOutcome};
use crate::raft_node::{NodeV, RaftNode, RequestVote, Role, MIN_ELECTION_TIMEOUT_TICKS};
use crate::raft_node_laws;
use crate::snapshot_codec::SnapshotData;
use crate::types;
use crate::types::{Command, DbError, DbResult, Index, NodeId, Term};
use crate::wal::{Wal, WalV};

verus! {

/// A cluster. The members stand in ascending order of their ids; the other
/// vectors hold what is known of each, in the same order.
#[derive(Debug)]
pub struct RaftCluster {
    pub nodes: Vec<RaftNode>,
    pub leader_id: NodeId,
    pub current_term: Term,
    pub next_index: Vec<Index>,
    pub match_index: Vec<Index>,
    pub connected_to_leader: Vec<bool>,
    pub heartbeat_interval_ticks: u64,
    pub clock_ticks: u64,
}

/// The views of the members.
pub open spec fn node_views(nodes: Seq<RaftNode>) -> Seq<NodeV> {
    Seq::new(nodes.len(), |i: int| nodes[i]@)
}

/// The views of write-ahead logs.
pub open spec fn wal_views(wals: Seq<Wal>) -> Seq<WalV> {
    Seq::new(wals.len(), |i: int| wals[i]@)
}

impl View for RaftCluster {
    type V = ClusterV;

    open spec fn view(&self) -> ClusterV {
        ClusterV {
            nodes: node_views(self.nodes@),
            leader_id: self.leader_id,
            current_term: self.current_term,
            next_index: self.next_index@,
            match_index: self.match_index@,
            connected: self.connected_to_leader@,
            heartbeat_interval_ticks: self.heartbeat_interval_ticks,
            clock_ticks: self.clock_ticks,
        }
    }
}

impl RaftCluster {
    /// The cluster and each of its members is valid.
    pub open spec fn wf(&self) -> bool {
        &&& self@.wf()
        &&& forall|i: int| 0 <= i < self.nodes@.len() ==> (#[trigger] self.nodes@[i]).wf()
    }

    /// The place of the member with the id.
    fn place_of(&self, node_id: NodeId) -> (r: Option<usize>)
        requires
            self.wf(),
        ensures
            match r {
                Some(i) => i < self.nodes@.len() && self@.nodes[i as int].id == node_id
                    && raft_model::has_member(self@.nodes, node_id) && raft_model::position(
                    self@.nodes,
                    node_id,
                ) == i,
                None => !raft_model::has_member(self@.nodes, node_id),
            },
    {
        let mut i: usize = 0;
        while i < self.nodes.len()
            invariant
                i <= self.nodes@.len(),
                self.wf(),
                forall|k: int| 0 <= k < i ==> (#[trigger] self@.nodes[k]).id != node_id,
            decreases self.nodes@.len() - i,
        {
            if self.nodes[i].id() == node_id {
                proof {
                    raft_laws::position_is(self@.nodes, node_id, i as int);
                }
                return Some(i);
            }
            assert(self@.nodes[i as int].id != node_id);
            i += 1;
        }
        None
    }

    /// The place of the leader.
    fn leader_place(&self) -> (r: usize)
        requires
            self.wf(),
        ensures
            r == self@.leader_at(),
            r < self.nodes@.len(),
    {
        match self.place_of(self.leader_id) {
            Some(i) => i,
            None => 0,
        }
    }

    pub fn quorum_size(&self) -> (r: usize)
        requires
            self.wf(),
        ensures
            r == self@.quorum(),
    {
        proof {
            raft_laws::leader_has_place(self@);
        }
        (self.nodes.len() / 2) + 1
    }

    /// Brings the member at `i` up to date with the leader at `l`.
    fn replicate_to_follower(&mut self, l: usize, i: usize) -> (r: DbResult<bool>)
        requires
            old(self).wf(),
            l < old(self).nodes@.len(),
            i < old(self).nodes@.len(),
        ensures
            final(self).wf(),
            final(self)@ == old(self)@.replicate(l as int, i as int).0,
            types::result_view(r) == old(self)@.replicate(l as int, i as int).1,
    {
        proof {
            reveal(ClusterV::replicate);
        }
        if i == l {
            return Ok(true);
        }
        if !self.connected_to_leader[i] {
            return Ok(false);
        }
        if self.nodes[l].role() != Role::Leader || !self.connected_to_leader[l] {
            return Ok(false);
        }
        let mut sent = false;
        let ghost start = self@;
        loop
            invariant
                self.wf(),
                l < self.nodes@.len(),
                i < self.nodes@.len(),
                i != l,
                start.catch_up(l as int, i as int, false) == self@.catch_up(
                    l as int,
                    i as int,
                    sent,
                ),
                start.replicate(l as int, i as int) == start.catch_up(l as int, i as int, false),
                start == old(self)@,
            decreases
                    (if sent {
                        0int
                    } else {
                        1int
                    }), self.next_index@[i as int],
        {
            let ghost c = self@;
            proof {
                raft_laws::valid_is_bounded(c);
                assert(c.member_ok(l as int));
                assert(c.member_ok(i as int));
                raft_laws::catching_up_keeps(
                    c,
                    l as int,
                    i as int,
                    sent,
                    u64::MAX,
                    (u64::MAX - 1) as u64,
                );
            }
            let next_index: u64 = self.next_index[i];
            let leader_term: u64 = self.nodes[l].current_term();
            let leader_base_index: u64 = self.nodes[l].log_base_index();
            let leader_last_index: u64 = self.nodes[l].last_index();
            let leader_commit: u64 = self.nodes[l].commit_index();
            if next_index > leader_last_index + 1 {
                self.next_index[i] = leader_last_index + 1;
                proof {
                    assert(self@ =~= c.with_next(i as int, (leader_last_index + 1) as u64));
                    raft_laws::tracking_keeps(c, i as int, (leader_last_index + 1) as u64, 0);
                }
                continue ;
            }
            if next_index <= leader_base_index {
                let snapshot: SnapshotData = match &self.nodes[l].snapshot {
                    Some(data) => data.clone(),
                    None => {
                        return Err(DbError::MissingLogEntry(leader_base_index));
                    },
                };
                if sent {
                    return Ok(false);
                }
                proof {
                    raft_node_laws::installing_keeps(
                        c.nodes[i as int],
                        leader_term,
                        snapshot@,
                        leader_commit,
                    );
                }
                let installed = self.nodes[i].install_snapshot_from_leader(
                    leader_term,
                    &snapshot,
                    leader_commit,
                );
                let ghost node = self.nodes@[i as int]@;
                assert(self@ =~= c.with_node(i as int, node));
                proof {
                    raft_laws::replacing_keeps(
                        c,
                        i as int,
                        node,
                        u64::MAX,
                        (u64::MAX - 1) as u64,
                    );
                }
                match installed {
                    Ok(true) => {},
                    Ok(false) => {
                        return Ok(false);
                    },
                    Err(error) => {
                        return Err(error);
                    },
                }
                let ghost d = self@;
                self.match_index[i] = snapshot.last_included_index;
                self.next_index[i] = snapshot.last_included_index + 1;
                proof {
                    assert(self@ =~= d.with_progress(i as int, snapshot.last_included_index));
                    raft_laws::tracking_keeps(d, i as int, 1, snapshot.last_included_index);
                }
                sent = true;
                continue ;
            }
            let prev_log_index: u64 = next_index - 1;
            let prev_log_term: u64 = if prev_log_index == 0 {
                0
            } else {
                match self.nodes[l].term_at(prev_log_index) {
                    Some(term) => term,
                    None => {
                        if next_index <= 1 {
                            return Ok(false);
                        }
                        self.next_index[i] = next_index - 1;
                        proof {
                            assert(self@ =~= c.with_next(i as int, (next_index - 1) as u64));
                            raft_laws::tracking_keeps(c, i as int, (next_index - 1) as u64, 0);
                        }
                        continue ;
                    },
                }
            };
            let entries = self.nodes[l].entries_from(next_index);
            proof {
                raft_laws::sent_entries_follow(c, l as int, next_index);
                raft_node_laws::appending_keeps(
                    c.nodes[i as int],
                    leader_term,
                    prev_log_index,
                    prev_log_term,
                    types::entry_views(entries@),
                    leader_commit,
                );
            }
            let taken = self.nodes[i].append_entries_from_leader(
                leader_term,
                prev_log_index,
                prev_log_term,
                &entries,
                leader_commit,
            );
            let ghost node = self.nodes@[i as int]@;
            assert(self@ =~= c.with_node(i as int, node));
            proof {
                raft_laws::replacing_keeps(c, i as int, node, u64::MAX, (u64::MAX - 1) as u64);
            }
            let ghost d = self@;
            match taken {
                Ok(true) => {
                    self.match_index[i] = leader_last_index;
                    self.next_index[i] = leader_last_index + 1;
                    proof {
                        assert(self@ =~= d.with_progress(i as int, leader_last_index));
                        raft_laws::tracking_keeps(d, i as int, 1, leader_last_index);
                    }
                    return Ok(true);
                },
                Ok(false) => {
                    if next_index <= 1 {
                        return Ok(false);
                    }
                    self.next_index[i] = next_index - 1;
                    proof {
                        assert(self@ =~= d.with_next(i as int, (next_index - 1) as u64));
                        raft_laws::tracking_keeps(d, i as int, (next_index - 1) as u64, 0);
                    }
                },
                Err(error) => {
                    return Err(error);
                },
            }
        }
    }

    /// Replicates to every member but the leader at `l`, and counts those that
    /// have taken everything.
    fn replicate_to_all(&mut self, l: usize, first_acks: usize) -> (r: DbResult<usize>)
        requires
            old(self).wf(),
            l < old(self).nodes@.len(),
            first_acks <= 1,
        ensures
            final(self).wf(),
            final(self)@ == old(self)@.replicate_from(
                l as int,
                0,
                old(self)@.nodes.len() as int,
                first_acks as int,
            ).0,
            match old(self)@.replicate_from(
                l as int,
                0,
                old(self)@.nodes.len() as int,
                first_acks as int,
            ).1 {
                Ok(acks) => r matches Ok(n) && n == acks,
                Err(error) => r matches Err(e) && e@ == error,
            },
    {
        let mut acks: usize = first_acks;
        let mut k: usize = 0;
        let end: usize = self.nodes.len();
        let ghost start = self@;
        while k < end
            invariant
                self.wf(),
                k <= end,
                end == self.nodes@.len(),
                start.nodes.len() == end,
                l < end,
                acks <= k + 1,
                k > l ==> acks <= k,
                start == old(self)@,
                start.replicate_from(l as int, 0, end as int, first_acks as int)
                    == self@.replicate_from(l as int, k as int, end as int, acks as int),
            decreases end - k,
        {
            if k != l {
                proof {
                    raft_laws::valid_is_bounded(self@);
                    raft_laws::replicating_keeps(
                        self@,
                        l as int,
                        k as int,
                        u64::MAX,
                        (u64::MAX - 1) as u64,
                    );
                }
                match self.replicate_to_follower(l, k) {
                    Ok(taken) => {
                        if taken {
                            acks += 1;
                        }
                    },
                    Err(error) => {
                        return Err(error);
                    },
                }
            }
            k += 1;
        }
        Ok(acks)
    }

    /// Sends a round of heartbeats and reports who has answered.
    pub fn heartbeat_round(&mut self) -> (r: DbResult<HeartbeatRoundOutcome>)
        requires
            old(self).wf(),
        ensures
            final(self).wf(),
            final(self)@ == old(self)@.heartbeat_round().0,
            match old(self)@.heartbeat_round().1 {
                Ok(outcome) => r == Ok::<HeartbeatRoundOutcome, DbError>(outcome),
                Err(error) => r matches Err(e) && e@ == error,
            },
    {
        proof {
            reveal(ClusterV::heartbeat_round);
        }
        let l: usize = self.leader_place();
        let leader_id: u64 = self.leader_id;
        if self.nodes[l].role() != Role::Leader {
            return Err(DbError::LeaderMissing(leader_id));
        }
        let term: u64 = self.nodes[l].current_term();
        let quorum: usize = self.quorum_size();
        let first_acks: usize = if self.connected_to_leader[l] {
            1
        } else {
            0
        };
        match self.replicate_to_all(l, first_acks) {
            Ok(acknowledged_nodes) => Ok(
                HeartbeatRoundOutcome { term, leader_id, acknowledged_nodes, quorum },
            ),
            Err(error) => Err(error),
        }
    }

    /// How many members are known to hold everything through `index`.
    fn count_replicated(&self, index: Index) -> (r: usize)
        ensures
            r == raft_model::count_reaching(self@.match_index, index),
    {
        let mut count: usize = 0;
        let mut k: usize = 0;
        while k < self.match_index.len()
            invariant
                k <= self.match_index@.len(),
                count <= k,
                count == raft_model::count_reaching(self.match_index@.take(k as int), index),
            decreases self.match_index@.len() - k,
        {
            assert(self.match_index@.take(k + 1).drop_last() =~= self.match_index@.take(k as int));
            if self.match_index[k] >= index {
                count += 1;
            }
            k += 1;
        }
        assert(self.match_index@.take(k as int) =~= self.match_index@);
        count
    }

    /// Commits on the leader at `l` what a quorum holds of its own term.
    fn advance_leader_commit_index(&mut self, l: usize)
        requires
            old(self).wf(),
            l < old(self).nodes@.len(),
        ensures
            final(self).wf(),
            final(self)@ == old(self)@.advance_commit(l as int),
    {
        let leader_last_index: u64 = self.nodes[l].last_index();
        let leader_term: u64 = self.nodes[l].current_term();
        let current_commit: u64 = self.nodes[l].commit_index();
        let quorum: usize = self.quorum_size();
        let ghost c = self@;
        let ghost point = c.commit_point(l as int, leader_last_index);
        let mut candidate: u64 = leader_last_index;
        proof {
            raft_laws::valid_is_bounded(c);
            raft_laws::advancing_commit_keeps(c, l as int, u64::MAX, (u64::MAX - 1) as u64);
            assert(c.member_ok(l as int));
        }
        while candidate > current_commit
            invariant_except_break
                self.wf(),
                l < self.nodes@.len(),
                self@ == c,
                quorum == c.quorum(),
                leader_term == c.nodes[l as int].current_term,
                current_commit == c.nodes[l as int].commit_index,
                candidate <= c.nodes[l as int].log.last_index(),
                point == c.commit_point(l as int, candidate),
            ensures
                self.wf(),
                l < self.nodes@.len(),
                self@ == c,
                candidate <= c.nodes[l as int].log.last_index(),
                candidate > current_commit ==> point == candidate,
                candidate <= current_commit ==> point == current_commit,
            decreases candidate,
        {
            if self.count_replicated(candidate) >= quorum && self.nodes[l].term_at(candidate)
                == Some(leader_term) {
                break;
            }
            candidate = candidate - 1;
        }
        if candidate > current_commit {
            self.nodes[l].commit_to(candidate);
            assert(self@ =~= c.advance_commit(l as int));
        } else {
            assert(self@ =~= c.advance_commit(l as int));
        }
    }

    /// How many members have committed everything through `index`.
    pub(crate) fn count_committed(&self, index: Index) -> (r: usize)
        ensures
            r == raft_model::count_reaching(raft_model::commits(self@.nodes), index),
    {
        let ghost all = raft_model::commits(self@.nodes);
        let mut count: usize = 0;
        let mut k: usize = 0;
        while k < self.nodes.len()
            invariant
                k <= self.nodes@.len(),
                count <= k,
                all == raft_model::commits(self@.nodes),
                count == raft_model::count_reaching(all.take(k as int), index),
            decreases self.nodes@.len() - k,
        {
            assert(all.take(k + 1).drop_last() =~= all.take(k as int));
            assert(all[k as int] == self.nodes@[k as int]@.commit_index);
            if self.nodes[k].commit_index() >= index {
                count += 1;
            }
            k += 1;
        }
        assert(all.take(k as int) =~= all);
        count
    }

    /// Takes a command into the replicated log.
    pub fn propose(&mut self, command: Command) -> (r: DbResult<ProposalOutcome>)
        requires
            old(self).wf(),
            old(self)@.log_room(1),
        ensures
            final(self).wf(),
            raft_laws::advances(old(self)@, final(self)@),
            final(self)@ == old(self)@.propose(command@).0,
            match old(self)@.propose(command@).1 {
                Ok(outcome) => r == Ok::<ProposalOutcome, DbError>(outcome),
                Err(error) => r matches Err(e) && e@ == error,
            },
    {
        let ghost c = self@;
        proof {
            raft_laws::proposing_takes_room(c, command@, 1);
            reveal(ClusterV::propose);
            raft_laws::leader_has_place(c);
            assert(c.member_ok(c.leader_at()));
            raft_laws::writing_keeps(
                c.nodes[c.leader_at()],
                command@,
                c.nodes[c.leader_at()].current_term,
            );
            raft_laws::valid_is_bounded(c);
        }
        let l: usize = self.leader_place();
        if self.nodes[l].role() != Role::Leader {
            return Err(DbError::LeaderMissing(self.leader_id));
        }
        let leader_term: u64 = self.nodes[l].current_term();
        let written = self.nodes[l].append_local_entry(command, leader_term);
        let ghost node = self.nodes@[l as int]@;
        assert(self@ =~= c.with_node(l as int, node));
        proof {
            raft_laws::replacing_keeps(c, l as int, node, u64::MAX, (u64::MAX - 1) as u64);
        }
        let appended_index: u64 = match written {
            Ok(entry) => entry.index,
            Err(error) => {
                return Err(error);
            },
        };
        let ghost d = self@;
        self.match_index[l] = appended_index;
        self.next_index[l] = appended_index + 1;
        proof {
            assert(self@ =~= d.with_progress(l as int, appended_index));
            raft_laws::tracking_keeps(d, l as int, 1, appended_index);
            raft_laws::valid_is_bounded(self@);
            raft_laws::replicating_from_keeps(
                self@,
                l as int,
                0,
                self@.nodes.len() as int,
                0,
                u64::MAX,
                (u64::MAX - 1) as u64,
            );
        }
        match self.replicate_to_all(l, 0) {
            Ok(_) => {},
            Err(error) => {
                return Err(error);
            },
        }
        self.advance_leader_commit_index(l);
        match self.replicate_to_all(l, 0) {
            Ok(_) => {},
            Err(error) => {
                return Err(error);
            },
        }
        let committed_nodes: usize = self.count_committed(appended_index);
        Ok(ProposalOutcome { index: appended_index, committed_nodes })
    }

    /// Asks the other members for their votes for the candidate at `i`; how many
    /// votes it has then, and whether a member in a later term has stopped it.
    fn collect_votes(&mut self, i: usize, request: &RequestVote) -> (r: (usize, bool))
        requires
            old(self).wf(),
            i < old(self).nodes@.len(),
            request.candidate_id == old(self)@.nodes[i as int].id,
        ensures
            final(self).wf(),
            (final(self)@, r.0 as int, r.1) == old(self)@.collect_votes(
                i as int,
                *request,
                0,
                old(self)@.nodes.len() as int,
                1,
            ),
    {
        let mut votes: usize = 1;
        let mut k: usize = 0;
        let end: usize = self.nodes.len();
        let ghost start = self@;
        while k < end
            invariant
                self.wf(),
                k <= end,
                end == self.nodes@.len(),
                start.nodes.len() == end,
                i < end,
                request.candidate_id == self@.nodes[i as int].id,
                votes <= k + 1,
                k > i ==> votes <= k,
                start == old(self)@,
                start.collect_votes(i as int, *request, 0, end as int, 1) == self@.collect_votes(
                    i as int,
                    *request,
                    k as int,
                    end as int,
                    votes as int,
                ),
            decreases end - k,
        {
            let ghost c = self@;
            if k != i && self.connected_to_leader[i] && self.connected_to_leader[k] {
                proof {
                    raft_laws::valid_is_bounded(c);
                    assert(c.member_ok(k as int));
                    raft_laws::different_places_different_ids(c, i as int, k as int);
                    raft_node_laws::voting_keeps(c.nodes[k as int], *request);
                }
                let response = self.nodes[k].request_vote(request);
                let ghost voter = self.nodes@[k as int]@;
                assert(self@ =~= c.with_node(k as int, voter));
                proof {
                    raft_laws::replacing_keeps(
                        c,
                        k as int,
                        voter,
                        u64::MAX,
                        (u64::MAX - 1) as u64,
                    );
                }
                if response.term > request.term {
                    let ghost d = self@;
                    proof {
                        assert(d.member_ok(i as int));
                        raft_node_laws::becoming_follower_keeps(d.nodes[i as int], response.term);
                        raft_laws::collecting_keeps(
                            c,
                            i as int,
                            *request,
                            k as int,
                            end as int,
                            votes as int,
                            u64::MAX,
                            (u64::MAX - 1) as u64,
                        );
                    }
                    self.nodes[i].become_follower(response.term);
                    self.current_term = response.term;
                    assert(self@ =~= (ClusterV {
                        current_term: response.term,
                        ..d.with_node(i as int, d.nodes[i as int].become_follower(response.term))
                    }));
                    return (votes, true);
                }
                if response.vote_granted {
                    votes += 1;
                }
            }
            k += 1;
        }
        (votes, false)
    }

    /// Puts the member at `i` into office in `term`.
    fn crown(&mut self, i: usize, term: Term)
        requires
            old(self).wf(),
            i < old(self).nodes@.len(),
        ensures
            final(self).wf(),
            final(self)@ == old(self)@.crown(i as int, term),
    {
        let ghost c = self@;
        proof {
            raft_laws::valid_is_bounded(c);
            raft_laws::crowning_keeps(c, i as int, term, u64::MAX, (u64::MAX - 1) as u64);
            reveal(ClusterV::crown);
            assert(c.member_ok(i as int));
        }
        let leader_last_index: u64 = self.nodes[i].last_index();
        self.leader_id = self.nodes[i].id();
        self.current_term = term;
        self.connected_to_leader[i] = true;
        let end: usize = self.nodes.len();
        let mut k: usize = 0;
        while k < end
            invariant
                k <= end,
                i < end,
                end == self.nodes@.len(),
                end == c.nodes.len(),
                c.next_index.len() == end,
                c.match_index.len() == end,
                c.connected.len() == end,
                self.next_index@.len() == end,
                self.match_index@.len() == end,
                leader_last_index == c.nodes[i as int].log.last_index(),
                leader_last_index < u64::MAX,
                self.leader_id == c.nodes[i as int].id,
                self.current_term == term,
                self.connected_to_leader@ == c.connected.update(i as int, true),
                self.heartbeat_interval_ticks == c.heartbeat_interval_ticks,
                self.clock_ticks == c.clock_ticks,
                forall|j: int| 0 <= j < end ==> (#[trigger] self.nodes@[j]).wf(),
                forall|j: int|
                    0 <= j < end ==> #[trigger] self.nodes@[j]@ == if j >= k {
                        c.nodes[j]
                    } else if j == i {
                        c.nodes[j].become_leader()
                    } else {
                        c.nodes[j].become_follower(term)
                    },
                forall|j: int|
                    0 <= j < k ==> #[trigger] self.match_index@[j] == if j == i {
                        leader_last_index
                    } else {
                        0
                    },
                forall|j: int| 0 <= j < k ==> #[trigger] self.next_index@[j] == leader_last_index + 1,
            decreases end - k,
        {
            assert(self.nodes@[k as int]@ == c.nodes[k as int]);
            if k == i {
                self.nodes[k].become_leader();
                self.match_index[k] = leader_last_index;
            } else {
                self.nodes[k].become_follower(term);
                self.match_index[k] = 0;
            }
            self.next_index[k] = leader_last_index + 1;
            k += 1;
        }
        assert(self@.nodes =~= c.crown(i as int, term).nodes);
        assert(self@ =~= c.crown(i as int, term));
    }

    /// Turns the member at `i` into a candidate and writes its request.
    fn stand(&mut self, i: usize) -> (r: RequestVote)
        requires
            old(self).wf(),
            i < old(self).nodes@.len(),
            old(self)@.nodes[i as int].current_term < u64::MAX,
        ensures
            final(self).wf(),
            final(self)@ == old(self)@.stood(i as int),
            r == final(self)@.ballot(i as int),
    {
        let ghost c = self@;
        proof {
            reveal(ClusterV::stood);
            raft_laws::valid_is_bounded(c);
            assert(c.member_ok(i as int));
        }
        self.nodes[i].become_candidate();
        let term: u64 = self.nodes[i].current_term();
        if term > self.current_term {
            self.current_term = term;
        }
        let ghost stood = c.stood(i as int);
        proof {
            assert(self@ =~= stood);
            raft_laws::replacing_keeps(
                c,
                i as int,
                c.nodes[i as int].become_candidate(),
                u64::MAX,
                (u64::MAX - 1) as u64,
            );
            let d = c.with_node(i as int, c.nodes[i as int].become_candidate());
            assert forall|k: int| 0 <= k < stood.nodes.len() implies #[trigger] stood.member_ok(
                k,
            ) by {
                assert(d.member_ok(k));
            }
        }
        RequestVote {
            term,
            candidate_id: self.nodes[i].id(),
            last_log_index: self.nodes[i].last_index(),
            last_log_term: self.nodes[i].last_term(),
        }
    }

    /// Makes the candidate at `i` wait longer before it stands again.
    fn back_off(&mut self, i: usize)
        requires
            old(self).wf(),
            i < old(self).nodes@.len(),
        ensures
            final(self).wf(),
            final(self)@ == old(self)@.with_node(
                i as int,
                NodeV { election_elapsed: 0, ..old(self)@.nodes[i as int].increase_backoff() },
            ),
    {
        let ghost c = self@;
        proof {
            raft_laws::valid_is_bounded(c);
            assert(c.member_ok(i as int));
        }
        self.nodes[i].increase_election_backoff();
        self.nodes[i].election_elapsed = 0;
        proof {
            let node = NodeV { election_elapsed: 0, ..c.nodes[i as int].increase_backoff() };
            assert(self@ =~= c.with_node(i as int, node));
            raft_laws::replacing_keeps(c, i as int, node, u64::MAX, (u64::MAX - 1) as u64);
        }
    }

    /// The member at `i` stands for election.
    fn elect(&mut self, i: usize) -> (r: DbResult<ElectionOutcome>)
        requires
            old(self).wf(),
            i < old(self).nodes@.len(),
            old(self)@.nodes[i as int].current_term < u64::MAX,
        ensures
            final(self).wf(),
            final(self)@ == old(self)@.elect(i as int).0,
            match old(self)@.elect(i as int).1 {
                Ok(outcome) => r == Ok::<ElectionOutcome, DbError>(outcome),
                Err(error) => r matches Err(e) && e@ == error,
            },
    {
        proof {
            reveal(ClusterV::elect);
            raft_laws::valid_is_bounded(self@);
        }
        let old_leader: u64 = self.leader_id;
        let quorum: usize = self.quorum_size();
        let request = self.stand(i);
        proof {
            assert(self@.nodes.len() == old(self)@.nodes.len()) by {
                reveal(ClusterV::stood);
            }
            raft_laws::valid_is_bounded(self@);
            raft_laws::collecting_keeps(
                self@,
                i as int,
                request,
                0,
                self@.nodes.len() as int,
                1,
                u64::MAX,
                (u64::MAX - 1) as u64,
            );
        }
        let (votes_received, stopped) = self.collect_votes(i, &request);
        if stopped {
            return Ok(
                ElectionOutcome {
                    term: self.current_term,
                    votes_received,
                    elected: false,
                    leader_id: old_leader,
                },
            );
        }
        if votes_received >= quorum {
            self.crown(i, request.term);
            match self.heartbeat_round() {
                Ok(_) => {},
                Err(error) => {
                    return Err(error);
                },
            }
            return Ok(
                ElectionOutcome {
                    term: request.term,
                    votes_received,
                    elected: true,
                    leader_id: request.candidate_id,
                },
            );
        }
        self.back_off(i);
        Ok(
            ElectionOutcome {
                term: request.term,
                votes_received,
                elected: false,
                leader_id: old_leader,
            },
        )
    }

    /// Makes the member stand for election.
    pub fn start_election(&mut self, candidate_id: NodeId) -> (r: DbResult<ElectionOutcome>)
        requires
            old(self).wf(),
            old(self)@.term_room(1),
        ensures
            final(self).wf(),
            raft_laws::advances(old(self)@, final(self)@),
            final(self)@ == old(self)@.start_election(candidate_id).0,
            match old(self)@.start_election(candidate_id).1 {
                Ok(outcome) => r == Ok::<ElectionOutcome, DbError>(outcome),
                Err(error) => r matches Err(e) && e@ == error,
            },
    {
        match self.place_of(candidate_id) {
            Some(i) => {
                proof {
                    raft_laws::valid_is_bounded(self@);
                    raft_laws::electing_keeps(
                        self@,
                        i as int,
                        (u64::MAX - 1) as u64,
                        (u64::MAX - 1) as u64,
                    );
                }
                self.elect(i)
            },
            None => Err(DbError::NodeNotFound(candidate_id)),
        }
    }

    /// Ticks all election clocks, and lets the first member whose clock rings
    /// stand for election.
    fn maybe_elect(&mut self) -> (r: DbResult<()>)
        requires
            old(self).wf(),
            forall|k: int|
                0 <= k < old(self)@.nodes.len() ==> (
                #[trigger] old(self)@.nodes[k]).election_elapsed < old(self)@.clock_ticks
                    && old(self)@.nodes[k].current_term < u64::MAX,
        ensures
            final(self).wf(),
            final(self)@ == old(self)@.maybe_elect().0,
            types::result_view(r) == old(self)@.maybe_elect().1,
    {
        let ghost c = self@;
        let end: usize = self.nodes.len();
        let mut first: Option<usize> = None;
        let mut k: usize = 0;
        while k < end
            invariant
                k <= end,
                end == self.nodes@.len(),
                end == c.nodes.len(),
                self@ == (ClusterV { nodes: self@.nodes, ..c }),
                forall|j: int|
                    0 <= j < end ==> (#[trigger] c.nodes[j]).election_elapsed < c.clock_ticks,
                forall|j: int| 0 <= j < end ==> (#[trigger] self.nodes@[j]).wf(),
                forall|j: int|
                    0 <= j < end ==> #[trigger] self.nodes@[j]@ == if j >= k {
                        c.nodes[j]
                    } else {
                        c.nodes[j].election_tick().0
                    },
                raft_model::first_timeout(c.nodes, 0) == match first {
                    Some(i) => Some(i as int),
                    None => raft_model::first_timeout(c.nodes, k as int),
                },
                first matches Some(i) ==> i < end,
            decreases end - k,
        {
            assert(self.nodes@[k as int]@ == c.nodes[k as int]);
            let timed_out = self.nodes[k].has_election_timeout();
            if timed_out && first.is_none() {
                first = Some(k);
            }
            k += 1;
        }
        proof {
            assert(self@ =~= c.tick_elections());
            raft_laws::valid_is_bounded(c);
            raft_laws::ticking_elections_keeps(c, u64::MAX, (u64::MAX - 1) as u64);
        }
        match first {
            None => Ok(()),
            Some(i) => {
                assert(c.nodes[i as int].current_term < u64::MAX);
                match self.elect(i) {
                    Ok(outcome) => {
                        if outcome.elected {
                            match self.heartbeat_round() {
                                Ok(_) => Ok(()),
                                Err(error) => Err(error),
                            }
                        } else {
                            Ok(())
                        }
                    },
                    Err(error) => Err(error),
                }
            },
        }
    }

    /// Lets one tick of time pass.
    pub fn tick(&mut self) -> (r: DbResult<()>)
        requires
            old(self).wf(),
            old(self)@.room(1),
        ensures
            final(self).wf(),
            raft_laws::advances(old(self)@, final(self)@),
            final(self)@ == old(self)@.tick().0,
            types::result_view(r) == old(self)@.tick().1,
    {
        let ghost c = self@;
        let l: usize = self.leader_place();
        proof {
            raft_laws::ticking_takes_room(c, 1);
            reveal(ClusterV::tick);
            raft_laws::valid_is_bounded(c);
            raft_laws::pulsing_keeps(c, (u64::MAX - 1) as u64, (u64::MAX - 1) as u64);
            assert(c.member_ok(l as int));
        }
        self.clock_ticks = self.clock_ticks + 1;
        let mut due = false;
        if self.connected_to_leader[l] {
            let interval: u64 = self.heartbeat_interval_ticks;
            due = self.nodes[l].should_send_heartbeat(interval);
        }
        assert(self@ =~= c.pulse().0);
        let ghost d = self@;
        if due {
            proof {
                raft_laws::heartbeats_keep(d, (u64::MAX - 1) as u64, (u64::MAX - 1) as u64);
                raft_laws::leader_has_place(d);
            }
            match self.heartbeat_round() {
                Ok(_) => {},
                Err(error) => {
                    return Err(error);
                },
            }
        }
        self.maybe_elect()
    }

    /// Lets many ticks of time pass, until one fails.
    pub fn tick_many(&mut self, ticks: u64) -> (r: DbResult<()>)
        requires
            old(self).wf(),
            old(self)@.room(ticks as int),
        ensures
            final(self).wf(),
            raft_laws::advances(old(self)@, final(self)@),
            final(self)@ == old(self)@.tick_many(ticks as nat).0,
            types::result_view(r) == old(self)@.tick_many(ticks as nat).1,
    {
        let ghost c = self@;
        let mut done: u64 = 0;
        while done < ticks
            invariant
                done <= ticks,
                self.wf(),
                self@.room(ticks - done),
                c == old(self)@,
                raft_laws::advances(c, self@),
                c.tick_many(ticks as nat) == self@.tick_many((ticks - done) as nat),
            decreases ticks - done,
        {
            let ghost d = self@;
            proof {
                raft_laws::ticking_takes_room(d, ticks - done);
                raft_laws::advances_transitive(c, d, d.tick().0);
            }
            match self.tick() {
                Ok(()) => {},
                Err(error) => {
                    return Err(error);
                },
            }
            done += 1;
        }
        Ok(())
    }

    /// Cuts a member off.
    pub fn disconnect(&mut self, node_id: NodeId) -> (r: DbResult<()>)
        requires
            old(self).wf(),
        ensures
            final(self).wf(),
            final(self)@ == old(self)@.disconnect(node_id).0,
            types::result_view(r) == old(self)@.disconnect(node_id).1,
    {
        let ghost c = self@;
        match self.place_of(node_id) {
            Some(i) => {
                self.connected_to_leader[i] = false;
                proof {
                    assert(self@ =~= c.disconnect(node_id).0);
                    assert forall|k: int| 0 <= k < c.nodes.len() implies #[trigger] self@.member_ok(
                        k,
                    ) by {
                        assert(c.member_ok(k));
                    }
                }
                Ok(())
            },
            None => Err(DbError::NodeNotFound(node_id)),
        }
    }

    /// Lets messages to and from a member pass again, and brings it up to date.
    pub fn reconnect(&mut self, node_id: NodeId) -> (r: DbResult<()>)
        requires
            old(self).wf(),
        ensures
            final(self).wf(),
            raft_laws::advances(old(self)@, final(self)@),
            final(self)@ == old(self)@.reconnect(node_id).0,
            types::result_view(r) == old(self)@.reconnect(node_id).1,
    {
        let ghost c = self@;
        let l: usize = self.leader_place();
        let i: usize = match self.place_of(node_id) {
            Some(i) => i,
            None => {
                return Err(DbError::NodeNotFound(node_id));
            },
        };
        self.connected_to_leader[i] = true;
        let ghost joined = ClusterV { connected: c.connected.update(i as int, true), ..c };
        proof {
            assert(self@ =~= joined);
            assert forall|k: int| 0 <= k < c.nodes.len() implies #[trigger] joined.member_ok(k) by {
                assert(c.member_ok(k));
            }
            assert(joined.wf());
            raft_laws::valid_is_bounded(joined);
            raft_laws::heartbeats_keep(joined, u64::MAX, (u64::MAX - 1) as u64);
            raft_laws::replicating_keeps(
                joined,
                l as int,
                i as int,
                u64::MAX,
                (u64::MAX - 1) as u64,
            );
            raft_laws::advances_transitive(c, joined, joined.heartbeat_round().0);
            let told = joined.replicate(l as int, i as int).0;
            raft_laws::advances_transitive(c, joined, told);
            raft_laws::replicating_from_keeps(
                told,
                l as int,
                0,
                told.nodes.len() as int,
                0,
                u64::MAX,
                (u64::MAX - 1) as u64,
            );
            raft_laws::advances_transitive(
                c,
                told,
                told.replicate_from(l as int, 0, told.nodes.len() as int, 0).0,
            );
        }
        if node_id == self.leader_id {
            match self.heartbeat_round() {
                Ok(_) => Ok(()),
                Err(error) => Err(error),
            }
        } else {
            match self.replicate_to_follower(l, i) {
                Ok(_) => {},
                Err(error) => {
                    return Err(error);
                },
            }
            match self.replicate_to_all(l, 0) {
                Ok(_) => Ok(()),
                Err(error) => Err(error),
            }
        }
    }

    /// Whether messages to and from the member pass.
    pub fn is_connected_to_leader(&self, node_id: NodeId) -> (r: DbResult<bool>)
        requires
            self.wf(),
        ensures
            if raft_model::has_member(self@.nodes, node_id) {
                r == Ok::<bool, DbError>(
                    self@.connected[raft_model::position(self@.nodes, node_id)],
                )
            } else {
                r == Err::<bool, DbError>(DbError::NodeNotFound(node_id))
            },
    {
        match self.place_of(node_id) {
            Some(i) => Ok(self.connected_to_leader[i]),
            None => Err(DbError::NodeNotFound(node_id)),
        }
    }

    pub fn leader_id(&self) -> (r: NodeId)
        ensures
            r == self@.leader_id,
    {
        self.leader_id
    }

    pub fn current_term(&self) -> (r: Term)
        ensures
            r == self@.current_term,
    {
        self.current_term
    }

    pub fn clock_ticks(&self) -> (r: u64)
        ensures
            r == self@.clock_ticks,
    {
        self.clock_ticks
    }

    pub fn min_election_timeout_ticks(&self) -> (r: u64)
        ensures
            r == MIN_ELECTION_TIMEOUT_TICKS,
    {
        MIN_ELECTION_TIMEOUT_TICKS
    }

    /// Whether the clock and every term can go up `ticks` times.
    pub fn has_room(&self, ticks: u128) -> (r: bool)
        ensures
            r == self@.room(ticks as int),
    {
        let most: u128 = u64::MAX as u128;
        if ticks > most || self.clock_ticks as u128 + ticks > most {
            proof {
                assert(self@.clock_ticks + ticks > u64::MAX);
            }
            return false;
        }
        let mut i: usize = 0;
        while i < self.nodes.len()
            invariant
                i <= self.nodes@.len(),
                most == u64::MAX,
                ticks <= most,
                forall|k: int|
                    0 <= k < i ==> (#[trigger] self@.nodes[k]).current_term + ticks <= u64::MAX,
            decreases self.nodes@.len() - i,
        {
            assert(self@.nodes[i as int] == self.nodes@[i as int]@);
            if self.nodes[i].current_term() as u128 + ticks > most {
                return false;
            }
            i += 1;
        }
        true
    }

    /// Whether every log can take `entries` more entries.
    pub fn has_log_room(&self, entries: u128) -> (r: bool)
        requires
            self.wf(),
        ensures
            r == self@.log_room(entries as int),
    {
        let most: u128 = u64::MAX as u128;
        let mut i: usize = 0;
        while i < self.nodes.len()
            invariant
                i <= self.nodes@.len(),
                most == u64::MAX,
                self.wf(),
                forall|k: int|
                    0 <= k < i ==> (#[trigger] self@.nodes[k]).log.last_index() + entries
                        < u64::MAX,
            decreases self.nodes@.len() - i,
        {
            assert(self@.nodes[i as int] == self.nodes@[i as int]@);
            if entries >= most || self.nodes[i].last_index() as u128 + entries >= most {
                return false;
            }
            i += 1;
        }
        true
    }

    /// The ids of the members, in ascending order.
    pub fn node_ids(&self) -> (r: Vec<NodeId>)
        ensures
            r@ == Seq::new(self@.nodes.len(), |i: int| self@.nodes[i].id),
    {
        let mut ids: Vec<NodeId> = Vec::new();
        let mut i: usize = 0;
        while i < self.nodes.len()
            invariant
                i <= self.nodes@.len(),
                ids@.len() == i,
                forall|k: int| 0 <= k < i ==> #[trigger] ids@[k] == self@.nodes[k].id,
            decreases self.nodes@.len() - i,
        {
            ids.push(self.nodes[i].id());
            i += 1;
        }
        assert(ids@ =~= Seq::new(self@.nodes.len(), |i: int| self@.nodes[i].id));
        ids
    }

    /// The member with the id.
    pub fn node(&self, node_id: NodeId) -> (r: DbResult<&RaftNode>)
        requires
            self.wf(),
        ensures
            if raft_model::has_member(self@.nodes, node_id) {
                r matches Ok(node) && node.wf() && node@ == self@.nodes[raft_model::position(
                    self@.nodes,
                    node_id,
                )]
            } else {
                r == Err::<&RaftNode, DbError>(DbError::NodeNotFound(node_id))
            },
    {
        match self.place_of(node_id) {
            Some(i) => Ok(&self.nodes[i]),
            None => Err(DbError::NodeNotFound(node_id)),
        }
    }

    /// A copy of the state that the leader has committed.
    pub fn leader_snapshot(&self) -> (r: DbResult<OrderedMap<String>>)
        requires
            self.wf(),
        ensures
            r matches Ok(state) && state.wf() && state@ == self@.nodes[self@.leader_at()].state,
    {
        let l: usize = self.leader_place();
        Ok(self.nodes[l].snapshot())
    }

    /// Turns what the leader has committed into a snapshot.
    pub fn create_leader_snapshot(&mut self) -> (r: DbResult<Option<Index>>)
        requires
            old(self).wf(),
        ensures
            final(self).wf(),
            raft_laws::advances(old(self)@, final(self)@),
            final(self)@ == old(self)@.create_leader_snapshot().0,
            match old(self)@.create_leader_snapshot().1 {
                Ok(index) => r == Ok::<Option<Index>, DbError>(index),
                Err(error) => r matches Err(e) && e@ == error,
            },
    {
        let ghost c = self@;
        let l: usize = self.leader_place();
        proof {
            raft_laws::valid_is_bounded(c);
            assert(c.member_ok(l as int));
            raft_node_laws::compacting_keeps(c.nodes[l as int]);
        }
        let made = self.nodes[l].create_snapshot();
        let ghost node = self.nodes@[l as int]@;
        proof {
            assert(self@ =~= c.with_node(l as int, node));
            raft_laws::replacing_keeps(c, l as int, node, u64::MAX, (u64::MAX - 1) as u64);
        }
        let snapshot = match made {
            Ok(Some(snapshot)) => snapshot,
            Ok(None) => {
                return Ok(None);
            },
            Err(error) => {
                return Err(error);
            },
        };
        let leader_last_index: u64 = self.nodes[l].last_index();
        let ghost d = self@;
        assert(d.member_ok(l as int));
        self.match_index[l] = leader_last_index;
        self.next_index[l] = leader_last_index + 1;
        proof {
            assert(self@ =~= d.with_progress(l as int, leader_last_index));
            raft_laws::tracking_keeps(d, l as int, 1, leader_last_index);
        }
        Ok(Some(snapshot.last_included_index))
    }
}

} // verus!
