//! The cluster as a state machine: what replication, elections and the clock
//! do to the state of all members.
use vstd::prelude::*;

use crate::raft_node::{NodeV, RequestVote, Role, DEFAULT_HEARTBEAT_INTERVAL_TICKS};
use crate::types::{CommandV, DbErrorV, Index, NodeId, Term};
use crate::wal::WalV;

verus! {

/// What a proposal led to.
#[derive(Debug, Clone, Copy, PartialEq, Eq, Structural)]
pub struct ProposalOutcome {
    pub index: Index,
    pub committed_nodes: usize,
}

/// What an election led to.
#[derive(Debug, Clone, Copy, PartialEq, Eq, Structural)]
pub struct ElectionOutcome {
    pub term: Term,
    pub votes_received: usize,
    pub elected: bool,
    pub leader_id: NodeId,
}

/// Who answered a round of heartbeats.
#[derive(Debug, Clone, Copy, PartialEq, Eq, Structural)]
pub struct HeartbeatRoundOutcome {
    pub term: Term,
    pub leader_id: NodeId,
    pub acknowledged_nodes: usize,
    pub quorum: usize,
}

/// The state of a cluster. The members stand in ascending order of their ids;
/// the other sequences hold, member by member, the next index to send, the
/// last index known to be replicated, and whether messages pass.
#[verifier::ext_equal]
pub struct ClusterV {
    pub nodes: Seq<NodeV>,
    pub leader_id: NodeId,
    pub current_term: Term,
    pub next_index: Seq<Index>,
    pub match_index: Seq<Index>,
    pub connected: Seq<bool>,
    pub heartbeat_interval_ticks: u64,
    pub clock_ticks: u64,
}

/// Some member has the id.
pub open spec fn has_member(nodes: Seq<NodeV>, id: NodeId) -> bool {
    exists|i: int| 0 <= i < nodes.len() && (#[trigger] nodes[i]).id == id
}

/// The place of the member with the id.
pub open spec fn position(nodes: Seq<NodeV>, id: NodeId) -> int {
    choose|i: int| 0 <= i < nodes.len() && (#[trigger] nodes[i]).id == id
}

/// Ids in ascending order, and so without repetition.
pub open spec fn ids_ascend(nodes: Seq<NodeV>) -> bool {
    forall|i: int, j: int|
        0 <= i < j < nodes.len() ==> (#[trigger] nodes[i]).id < (#[trigger] nodes[j]).id
}

/// How many of the numbers reach `least`.
pub open spec fn count_reaching(numbers: Seq<Index>, least: Index) -> nat
    decreases numbers.len(),
{
    if numbers.len() == 0 {
        0
    } else if numbers.last() >= least {
        count_reaching(numbers.drop_last(), least) + 1
    } else {
        count_reaching(numbers.drop_last(), least)
    }
}

/// No more numbers reach a least one than there are.
pub proof fn counts_are_bounded(numbers: Seq<Index>, least: Index)
    ensures
        count_reaching(numbers, least) <= numbers.len(),
    decreases numbers.len(),
{
    if numbers.len() > 0 {
        counts_are_bounded(numbers.drop_last(), least);
    }
}

/// The commit indexes of the members.
pub open spec fn commits(nodes: Seq<NodeV>) -> Seq<Index> {
    Seq::new(nodes.len(), |i: int| nodes[i].commit_index)
}

/// The first member, from place `k` on, whose election clock rings at the next
/// tick.
pub open spec fn first_timeout(nodes: Seq<NodeV>, k: int) -> Option<int>
    decreases nodes.len() - k,
{
    if k >= nodes.len() {
        None
    } else if nodes[k].election_tick().1 {
        Some(k)
    } else {
        first_timeout(nodes, k + 1)
    }
}

/// The first id, from place `k` on, that stands before already.
pub open spec fn first_duplicate(ids: Seq<NodeId>, k: int) -> Option<NodeId>
    decreases ids.len() - k,
{
    if k >= ids.len() {
        None
    } else if ids.take(k).contains(ids[k]) {
        Some(ids[k])
    } else {
        first_duplicate(ids, k + 1)
    }
}

/// The members with the first `k` ids, in the order given, each restored from
/// its files where there are any, and the greatest term among them. A member
/// starts in the greatest term of those before it at least.
pub open spec fn restored_members(
    ids: Seq<NodeId>,
    wals: Option<Seq<WalV>>,
    k: nat,
) -> Result<(Seq<NodeV>, Term), DbErrorV>
    decreases k,
{
    if k == 0 {
        Ok((Seq::empty(), 1))
    } else {
        match restored_members(ids, wals, (k - 1) as nat) {
            Err(error) => Err(error),
            Ok((members, term)) => match wals {
                None => Ok(
                    (members.push(NodeV::fresh(ids[k - 1], Role::Follower, term)), term),
                ),
                Some(images) => match NodeV::restored(
                    ids[k - 1],
                    Role::Follower,
                    term,
                    images[k - 1],
                ) {
                    Err(error) => Err(error),
                    Ok(node) => Ok(
                        (
                            members.push(node),
                            if node.current_term > term {
                                node.current_term
                            } else {
                                term
                            },
                        ),
                    ),
                },
            },
        }
    }
}

/// The place, from `k` on, before the first greater id.
pub open spec fn place_for(nodes: Seq<NodeV>, id: NodeId, k: int) -> int
    decreases nodes.len() - k,
{
    if k >= nodes.len() || nodes[k].id > id {
        k
    } else {
        place_for(nodes, id, k + 1)
    }
}

/// The members in ascending order of their ids.
pub open spec fn by_id(members: Seq<NodeV>) -> Seq<NodeV>
    decreases members.len(),
{
    if members.len() == 0 {
        Seq::empty()
    } else {
        let rest = by_id(members.drop_last());
        rest.insert(place_for(rest, members.last().id, 0), members.last())
    }
}

/// Whether one member has committed more than another, or as much with a
/// longer log.
pub open spec fn ranks_above(a: NodeV, b: NodeV) -> bool {
    a.commit_index > b.commit_index || (a.commit_index == b.commit_index && a.log.last_index()
        > b.log.last_index())
}

/// The first member that none of the first `k` ranks above.
pub open spec fn highest_rank(members: Seq<NodeV>, k: nat) -> int
    decreases k,
{
    if k <= 1 {
        0
    } else {
        let best = highest_rank(members, (k - 1) as nat);
        if ranks_above(members[k - 1], members[best]) {
            k - 1
        } else {
            best
        }
    }
}

/// A member in a term below the cluster's is taken to it, without a vote.
pub open spec fn raised(node: NodeV, term: Term) -> NodeV {
    if node.current_term < term {
        NodeV { current_term: term, voted_for: None, ..node }.persist_meta()
    } else {
        node
    }
}

/// A member as it enters the cluster under the given leader.
pub open spec fn enrolled(node: NodeV, term: Term, leader_id: NodeId) -> NodeV {
    NodeV {
        role: if node.id == leader_id {
            Role::Leader
        } else {
            Role::Follower
        },
        ..raised(node, term).clear_backoff()
    }
}

/// The cluster of the given members under the given leader.
pub open spec fn assembled(nodes: Seq<NodeV>, term: Term, leader_id: NodeId) -> ClusterV {
    let last = nodes[position(nodes, leader_id)].log.last_index();
    ClusterV {
        nodes: Seq::new(nodes.len(), |i: int| enrolled(nodes[i], term, leader_id)),
        leader_id,
        current_term: term,
        next_index: Seq::new(nodes.len(), |i: int| (last + 1) as u64),
        match_index: Seq::new(
            nodes.len(),
            |i: int|
                if nodes[i].id == leader_id {
                    last
                } else {
                    0
                },
        ),
        connected: Seq::new(nodes.len(), |i: int| true),
        heartbeat_interval_ticks: DEFAULT_HEARTBEAT_INTERVAL_TICKS,
        clock_ticks: 0,
    }
}

/// Whether a member's log ends in the term, beyond an index.
pub open spec fn goes_beyond(node: NodeV, term: Term, last: Index) -> bool {
    node.log.last_term() == term && node.log.last_index() > last
}

/// The term in which members resume under a leader whose log ends at `last`: the
/// greatest that one of them was in. Where a member has entries of that term
/// beyond the leader's log, the leader writes its own in the next one, for two
/// entries of one term and index would be different.
#[verifier::opaque]
pub open spec fn resumed_term(nodes: Seq<NodeV>, term: Term, last: Index) -> Term {
    if term < u64::MAX && exists|i: int|
        0 <= i < nodes.len() && goes_beyond(#[trigger] nodes[i], term, last) {
        (term + 1) as u64
    } else {
        term
    }
}

/// Where no log goes beyond the leader's, members resume in the term they were
/// in.
pub proof fn short_logs_resume(nodes: Seq<NodeV>, term: Term, last: Index)
    requires
        forall|i: int| 0 <= i < nodes.len() ==> (#[trigger] nodes[i]).log.last_index() <= last,
    ensures
        resumed_term(nodes, term, last) == term,
{
    reveal(resumed_term);
}

/// Members resume in the term they were in or in the next one; and in that one
/// exactly where a log goes beyond the leader's.
pub proof fn terms_resume(nodes: Seq<NodeV>, term: Term, last: Index)
    ensures
        term <= resumed_term(nodes, term, last) <= term + 1,
        resumed_term(nodes, term, last) == term && term < u64::MAX ==> forall|i: int|
            0 <= i < nodes.len() ==> !goes_beyond(#[trigger] nodes[i], term, last),
{
    reveal(resumed_term);
}

/// The members under the given leader, in the term in which they resume.
pub open spec fn resumed(nodes: Seq<NodeV>, term: Term, leader_id: NodeId) -> ClusterV {
    let last = nodes[position(nodes, leader_id)].log.last_index();
    assembled(nodes, resumed_term(nodes, term, last), leader_id)
}

/// The cluster that the ids and the files, where there are any, stand for. Its
/// leader is the member that has committed most, the longer log deciding
/// between equals and the order given between those.
pub open spec fn built(ids: Seq<NodeId>, wals: Option<Seq<WalV>>) -> Result<ClusterV, DbErrorV> {
    if ids.len() < 3 {
        Err(DbErrorV::ClusterTooSmall)
    } else {
        match first_duplicate(ids, 0) {
            Some(id) => Err(DbErrorV::DuplicateNode(id)),
            None => match restored_members(ids, wals, ids.len()) {
                Err(error) => Err(error),
                Ok((members, term)) => Ok(
                    resumed(by_id(members), term, ids[highest_rank(members, ids.len())]),
                ),
            },
        }
    }
}

impl ClusterV {
    /// What holds of every member and of what the cluster knows of it.
    pub open spec fn member_ok(self, i: int) -> bool {
        &&& self.nodes[i].wf()
        &&& self.nodes[i].log.last_index() < u64::MAX
        &&& self.nodes[i].heartbeat_elapsed < self.heartbeat_interval_ticks
        &&& self.nodes[i].election_elapsed <= self.clock_ticks
        &&& self.nodes[i].role == Role::Leader ==> self.nodes[i].id == self.leader_id
        &&& self.next_index[i] >= 1
    }

    /// What holds of every cluster: at least one member, the leader among them,
    /// nobody else in the role of leader, and every member valid.
    pub open spec fn wf(self) -> bool {
        &&& self.nodes.len() <= usize::MAX
        &&& self.next_index.len() == self.nodes.len()
        &&& self.match_index.len() == self.nodes.len()
        &&& self.connected.len() == self.nodes.len()
        &&& ids_ascend(self.nodes)
        &&& has_member(self.nodes, self.leader_id)
        &&& forall|i: int| 0 <= i < self.nodes.len() ==> #[trigger] self.member_ok(i)
    }

    /// Every term can go up `n` times.
    pub open spec fn term_room(self, n: int) -> bool {
        forall|i: int|
            0 <= i < self.nodes.len() ==> (#[trigger] self.nodes[i]).current_term + n <= u64::MAX
    }

    /// The clock and every term can go up `n` times.
    pub open spec fn room(self, n: int) -> bool {
        &&& self.clock_ticks + n <= u64::MAX
        &&& self.term_room(n)
    }

    /// Every log can take `n` more entries and still have an index after its
    /// last.
    pub open spec fn log_room(self, n: int) -> bool {
        forall|i: int|
            0 <= i < self.nodes.len() ==> (#[trigger] self.nodes[i]).log.last_index() + n
                < u64::MAX
    }

    /// The place of the leader.
    pub open spec fn leader_at(self) -> int {
        position(self.nodes, self.leader_id)
    }

    pub open spec fn quorum(self) -> int {
        (self.nodes.len() / 2) as int + 1
    }

    pub open spec fn with_node(self, i: int, node: NodeV) -> ClusterV {
        ClusterV { nodes: self.nodes.update(i, node), ..self }
    }

    pub open spec fn with_next(self, i: int, next: Index) -> ClusterV {
        ClusterV { next_index: self.next_index.update(i, next), ..self }
    }

    /// What is known of member `i`: `matched` is replicated, and what comes
    /// after it is sent next.
    pub open spec fn with_progress(self, i: int, matched: Index) -> ClusterV {
        ClusterV {
            match_index: self.match_index.update(i, matched),
            next_index: self.next_index.update(i, (matched + 1) as u64),
            ..self
        }
    }

    /// The leader at place `l` is in office and messages from it pass.
    pub open spec fn available(self, l: int) -> bool {
        self.nodes[l].role == Role::Leader && self.connected[l]
    }

    /// The leader at `l` brings the member at `i` up to date, stepping back one
    /// entry at a time until the logs agree, or sending its snapshot where its
    /// log no longer reaches back. A snapshot is sent at most once: where the
    /// logs disagree even behind it, the member is left as it is.
    pub open spec fn catch_up(self, l: int, i: int, sent: bool) -> (
        ClusterV,
        Result<bool, DbErrorV>,
    )
        decreases (if sent {
            0int
        } else {
            1int
        }), self.next_index[i],
    {
        let leader = self.nodes[l];
        let next = self.next_index[i];
        let last = leader.log.last_index();
        if !(0 <= i < self.next_index.len()) {
            (self, Ok(false))
        } else if next > last + 1 {
            self.with_next(i, (last + 1) as u64).catch_up(l, i, sent)
        } else if next <= leader.log.base_index {
            match leader.snapshot {
                None => (self, Err(DbErrorV::MissingLogEntry(leader.log.base_index))),
                Some(data) => if sent {
                    (self, Ok(false))
                } else {
                    let (node, result) = self.nodes[i].install_snapshot(
                        leader.current_term,
                        data,
                        leader.commit_index,
                    );
                    match result {
                        Err(error) => (self.with_node(i, node), Err(error)),
                        Ok(installed) => if installed {
                            self.with_node(i, node).with_progress(
                                i,
                                data.last_included_index,
                            ).catch_up(l, i, true)
                        } else {
                            (self.with_node(i, node), Ok(false))
                        },
                    }
                },
            }
        } else {
            let prev = if next > 0 {
                (next - 1) as u64
            } else {
                0
            };
            let prev_term = if prev == 0 {
                Some(0)
            } else {
                leader.log.term_at(prev)
            };
            match prev_term {
                None => if next <= 1 {
                    (self, Ok(false))
                } else {
                    self.with_next(i, (next - 1) as u64).catch_up(l, i, sent)
                },
                Some(term) => {
                    let (node, result) = self.nodes[i].append_entries(
                        leader.current_term,
                        prev,
                        term,
                        leader.log.entries_from(next),
                        leader.commit_index,
                    );
                    let after = self.with_node(i, node);
                    match result {
                        Err(error) => (after, Err(error)),
                        Ok(taken) => if taken {
                            (after.with_progress(i, last), Ok(true))
                        } else if next <= 1 {
                            (after, Ok(false))
                        } else {
                            after.with_next(i, (next - 1) as u64).catch_up(l, i, sent)
                        },
                    }
                },
            }
        }
    }

    /// The leader at `l` replicates to the member at `i`; whether it has taken
    /// everything.
    #[verifier::opaque]
    pub open spec fn replicate(self, l: int, i: int) -> (ClusterV, Result<bool, DbErrorV>) {
        if i == l {
            (self, Ok(true))
        } else if !self.connected[i] || !self.available(l) {
            (self, Ok(false))
        } else {
            self.catch_up(l, i, false)
        }
    }

    /// The leader at `l` replicates to every other member from place `k` up to
    /// `end`; how many, beside the `acks` so far, have taken everything.
    pub open spec fn replicate_from(self, l: int, k: int, end: int, acks: int) -> (
        ClusterV,
        Result<int, DbErrorV>,
    )
        decreases end - k,
    {
        if k >= end {
            (self, Ok(acks))
        } else if k == l {
            self.replicate_from(l, k + 1, end, acks)
        } else {
            match self.replicate(l, k) {
                (after, Err(error)) => (after, Err(error)),
                (after, Ok(taken)) => after.replicate_from(
                    l,
                    k + 1,
                    end,
                    if taken {
                        acks + 1
                    } else {
                        acks
                    },
                ),
            }
        }
    }

    /// The leader replicates to all other members.
    pub open spec fn replicate_all(self) -> (ClusterV, Result<int, DbErrorV>) {
        self.replicate_from(
            self.leader_at(),
            0,
            self.nodes.len() as int,
            if self.connected[self.leader_at()] {
                1
            } else {
                0
            },
        )
    }

    /// A round of heartbeats of a leader in office.
    #[verifier::opaque]
    pub open spec fn heartbeat_round(self) -> (
        ClusterV,
        Result<HeartbeatRoundOutcome, DbErrorV>,
    ) {
        let leader = self.nodes[self.leader_at()];
        if leader.role != Role::Leader {
            (self, Err(DbErrorV::LeaderMissing(self.leader_id)))
        } else {
            match self.replicate_all() {
                (after, Err(error)) => (after, Err(error)),
                (after, Ok(acks)) => (
                    after,
                    Ok(
                        HeartbeatRoundOutcome {
                            term: leader.current_term,
                            leader_id: self.leader_id,
                            acknowledged_nodes: acks as usize,
                            quorum: self.quorum() as usize,
                        },
                    ),
                ),
            }
        }
    }

    /// The greatest index from `candidate` down that a quorum holds and that
    /// the leader at `l` has written in its own term; else what it has
    /// committed already.
    pub open spec fn commit_point(self, l: int, candidate: Index) -> Index
        decreases candidate,
    {
        let leader = self.nodes[l];
        if candidate <= leader.commit_index {
            leader.commit_index
        } else if count_reaching(self.match_index, candidate) >= self.quorum()
            && leader.log.term_at(candidate) == Some(leader.current_term) {
            candidate
        } else {
            self.commit_point(l, (candidate - 1) as u64)
        }
    }

    /// The leader at `l` commits what a quorum holds.
    pub open spec fn advance_commit(self, l: int) -> ClusterV {
        let leader = self.nodes[l];
        self.with_node(l, leader.commit_to(self.commit_point(l, leader.log.last_index())))
    }

    /// The leader takes a command into its log, replicates it, commits what a
    /// quorum holds and tells the others.
    #[verifier::opaque]
    pub open spec fn propose(self, command: CommandV) -> (
        ClusterV,
        Result<ProposalOutcome, DbErrorV>,
    ) {
        let l = self.leader_at();
        let leader = self.nodes[l];
        if leader.role != Role::Leader {
            (self, Err(DbErrorV::LeaderMissing(self.leader_id)))
        } else {
            let (node, result) = leader.append_local(command, leader.current_term);
            match result {
                Err(error) => (self.with_node(l, node), Err(error)),
                Ok(entry) => {
                    let end = self.nodes.len() as int;
                    let written = self.with_node(l, node).with_progress(l, entry.index);
                    match written.replicate_from(l, 0, end, 0) {
                        (sent, Err(error)) => (sent, Err(error)),
                        (sent, Ok(_)) => match sent.advance_commit(l).replicate_from(
                            l,
                            0,
                            end,
                            0,
                        ) {
                            (told, Err(error)) => (told, Err(error)),
                            (told, Ok(_)) => (
                                told,
                                Ok(
                                    ProposalOutcome {
                                        index: entry.index,
                                        committed_nodes: count_reaching(
                                            commits(told.nodes),
                                            entry.index,
                                        ) as usize,
                                    },
                                ),
                            ),
                        },
                    }
                },
            }
        }
    }

    /// The candidate at `i` asks every member from place `k` up to `end` for
    /// its vote. A member in a later term stops the election.
    pub open spec fn collect_votes(
        self,
        i: int,
        request: RequestVote,
        k: int,
        end: int,
        votes: int,
    ) -> (ClusterV, int, bool)
        decreases end - k,
    {
        if k >= end {
            (self, votes, false)
        } else if k == i || !(self.connected[i] && self.connected[k]) {
            self.collect_votes(i, request, k + 1, end, votes)
        } else {
            let (voter, response) = self.nodes[k].request_vote(request);
            let asked = self.with_node(k, voter);
            if response.term > request.term {
                (
                    ClusterV {
                        current_term: response.term,
                        ..asked.with_node(i, asked.nodes[i].become_follower(response.term))
                    },
                    votes,
                    true,
                )
            } else {
                asked.collect_votes(
                    i,
                    request,
                    k + 1,
                    end,
                    if response.vote_granted {
                        votes + 1
                    } else {
                        votes
                    },
                )
            }
        }
    }

    /// The member at `i` takes office in `term`; everybody else follows, and
    /// what is known of their logs is forgotten.
    #[verifier::opaque]
    pub open spec fn crown(self, i: int, term: Term) -> ClusterV {
        let last = self.nodes[i].log.last_index();
        ClusterV {
            leader_id: self.nodes[i].id,
            current_term: term,
            connected: self.connected.update(i, true),
            nodes: Seq::new(
                self.nodes.len(),
                |k: int|
                    if k == i {
                        self.nodes[k].become_leader()
                    } else {
                        self.nodes[k].become_follower(term)
                    },
            ),
            match_index: Seq::new(
                self.nodes.len(),
                |k: int|
                    if k == i {
                        last
                    } else {
                        0
                    },
            ),
            next_index: Seq::new(self.nodes.len(), |k: int| (last + 1) as u64),
            ..self
        }
    }

    /// The state right after the member at `i` has stood for election.
    #[verifier::opaque]
    pub open spec fn stood(self, i: int) -> ClusterV {
        let candidate = self.nodes[i].become_candidate();
        ClusterV {
            current_term: if candidate.current_term > self.current_term {
                candidate.current_term
            } else {
                self.current_term
            },
            ..self.with_node(i, candidate)
        }
    }

    /// What the candidate at `i` asks of the others.
    pub open spec fn ballot(self, i: int) -> RequestVote {
        let candidate = self.nodes[i];
        RequestVote {
            term: candidate.current_term,
            candidate_id: candidate.id,
            last_log_index: candidate.log.last_index(),
            last_log_term: candidate.log.last_term(),
        }
    }

    /// The member at `i` stands for election.
    #[verifier::opaque]
    pub open spec fn elect(self, i: int) -> (ClusterV, Result<ElectionOutcome, DbErrorV>) {
        let stood = self.stood(i);
        let request = stood.ballot(i);
        let (asked, votes, stopped) = stood.collect_votes(
            i,
            request,
            0,
            self.nodes.len() as int,
            1,
        );
        if stopped {
            (
                asked,
                Ok(
                    ElectionOutcome {
                        term: asked.current_term,
                        votes_received: votes as usize,
                        elected: false,
                        leader_id: self.leader_id,
                    },
                ),
            )
        } else if votes >= self.quorum() {
            match asked.crown(i, request.term).heartbeat_round() {
                (after, Err(error)) => (after, Err(error)),
                (after, Ok(_)) => (
                    after,
                    Ok(
                        ElectionOutcome {
                            term: request.term,
                            votes_received: votes as usize,
                            elected: true,
                            leader_id: request.candidate_id,
                        },
                    ),
                ),
            }
        } else {
            (
                asked.with_node(
                    i,
                    NodeV { election_elapsed: 0, ..asked.nodes[i].increase_backoff() },
                ),
                Ok(
                    ElectionOutcome {
                        term: request.term,
                        votes_received: votes as usize,
                        elected: false,
                        leader_id: self.leader_id,
                    },
                ),
            )
        }
    }

    /// The member with the id stands for election.
    pub open spec fn start_election(self, id: NodeId) -> (
        ClusterV,
        Result<ElectionOutcome, DbErrorV>,
    ) {
        if has_member(self.nodes, id) {
            self.elect(position(self.nodes, id))
        } else {
            (self, Err(DbErrorV::NodeNotFound(id)))
        }
    }

    /// The clock and, where its messages pass, the leader's heartbeat clock
    /// after one tick; and whether a heartbeat is due.
    pub open spec fn pulse(self) -> (ClusterV, bool) {
        let l = self.leader_at();
        let clocked = ClusterV { clock_ticks: (self.clock_ticks + 1) as u64, ..self };
        if self.connected[l] {
            let (leader, due) = self.nodes[l].heartbeat_tick(self.heartbeat_interval_ticks);
            (clocked.with_node(l, leader), due)
        } else {
            (clocked, false)
        }
    }

    /// All election clocks after one tick.
    pub open spec fn tick_elections(self) -> ClusterV {
        ClusterV {
            nodes: Seq::new(self.nodes.len(), |k: int| self.nodes[k].election_tick().0),
            ..self
        }
    }

    /// Election clocks tick, and the first member whose clock rings stands for
    /// election.
    pub open spec fn maybe_elect(self) -> (ClusterV, Result<(), DbErrorV>) {
        match first_timeout(self.nodes, 0) {
            None => (self.tick_elections(), Ok(())),
            Some(i) => match self.tick_elections().elect(i) {
                (after, Err(error)) => (after, Err(error)),
                (after, Ok(outcome)) => if outcome.elected {
                    match after.heartbeat_round() {
                        (beaten, Err(error)) => (beaten, Err(error)),
                        (beaten, Ok(_)) => (beaten, Ok(())),
                    }
                } else {
                    (after, Ok(()))
                },
            },
        }
    }

    /// One tick: heartbeats that are due, then elections.
    #[verifier::opaque]
    pub open spec fn tick(self) -> (ClusterV, Result<(), DbErrorV>) {
        let (pulsed, due) = self.pulse();
        if due {
            match pulsed.heartbeat_round() {
                (after, Err(error)) => (after, Err(error)),
                (after, Ok(_)) => after.maybe_elect(),
            }
        } else {
            pulsed.maybe_elect()
        }
    }

    /// Ticks one after the other, until one fails.
    pub open spec fn tick_many(self, ticks: nat) -> (ClusterV, Result<(), DbErrorV>)
        decreases ticks,
    {
        if ticks == 0 {
            (self, Ok(()))
        } else {
            match self.tick() {
                (after, Err(error)) => (after, Err(error)),
                (after, Ok(_)) => after.tick_many((ticks - 1) as nat),
            }
        }
    }

    /// Messages to and from the member no longer pass.
    pub open spec fn disconnect(self, id: NodeId) -> (ClusterV, Result<(), DbErrorV>) {
        if has_member(self.nodes, id) {
            (
                ClusterV {
                    connected: self.connected.update(position(self.nodes, id), false),
                    ..self
                },
                Ok(()),
            )
        } else {
            (self, Err(DbErrorV::NodeNotFound(id)))
        }
    }

    /// Messages pass again, and the member is brought up to date.
    pub open spec fn reconnect(self, id: NodeId) -> (ClusterV, Result<(), DbErrorV>) {
        if !has_member(self.nodes, id) {
            (self, Err(DbErrorV::NodeNotFound(id)))
        } else {
            let i = position(self.nodes, id);
            let l = self.leader_at();
            let joined = ClusterV { connected: self.connected.update(i, true), ..self };
            if id == self.leader_id {
                match joined.heartbeat_round() {
                    (after, Err(error)) => (after, Err(error)),
                    (after, Ok(_)) => (after, Ok(())),
                }
            } else {
                match joined.replicate(l, i) {
                    (after, Err(error)) => (after, Err(error)),
                    (after, Ok(_)) => match after.replicate_from(
                        l,
                        0,
                        self.nodes.len() as int,
                        0,
                    ) {
                        (told, Err(error)) => (told, Err(error)),
                        (told, Ok(_)) => (told, Ok(())),
                    },
                }
            }
        }
    }

    /// The leader turns what it has committed into a snapshot.
    pub open spec fn create_leader_snapshot(self) -> (ClusterV, Result<Option<Index>, DbErrorV>) {
        let l = self.leader_at();
        match self.nodes[l].create_snapshot() {
            (node, Err(error)) => (self.with_node(l, node), Err(error)),
            (node, Ok(None)) => (self.with_node(l, node), Ok(None)),
            (node, Ok(Some(data))) => (
                self.with_node(l, node).with_progress(l, node.log.last_index()),
                Ok(Some(data.last_included_index)),
            ),
        }
    }
}

} // verus!
