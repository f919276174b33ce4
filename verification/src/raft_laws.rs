//! What every operation on a cluster keeps, and what it never does.
use vstd::prelude::*;

use crate::memlog;
use crate::raft_model;
use crate::raft_model::ClusterV;
use crate::raft_node::{NodeV, RequestVote, Role};
use crate::raft_node_laws;
use crate::raft_node_laws::follows;
use crate::types::{CommandV, DbErrorV, Index, NodeId, Term};

verus! {

/// No term is above `term`, and no log reaches beyond `last`.
pub open spec fn bounded(c: ClusterV, term: Term, last: Index) -> bool {
    &&& last < u64::MAX
    &&& forall|i: int|
        0 <= i < c.nodes.len() ==> (#[trigger] c.nodes[i]).current_term <= term
            && c.nodes[i].log.last_index() <= last
}

/// The same members, none of whose terms or commit indexes has gone back, and
/// none of whom has changed its vote within a term.
pub open spec fn advances(before: ClusterV, after: ClusterV) -> bool {
    &&& after.nodes.len() == before.nodes.len()
    &&& after.heartbeat_interval_ticks == before.heartbeat_interval_ticks
    &&& forall|i: int|
        0 <= i < before.nodes.len() ==> {
            &&& (#[trigger] after.nodes[i]).id == before.nodes[i].id
            &&& before.nodes[i].current_term <= after.nodes[i].current_term
            &&& before.nodes[i].commit_index <= after.nodes[i].commit_index
            &&& raft_node_laws::vote_stands(before.nodes[i], after.nodes[i])
        }
}

/// Advancing twice is advancing.
pub proof fn advances_transitive(a: ClusterV, b: ClusterV, c: ClusterV)
    requires
        advances(a, b),
        advances(b, c),
    ensures
        advances(a, c),
{
    assert forall|i: int| 0 <= i < a.nodes.len() implies {
        &&& (#[trigger] c.nodes[i]).id == a.nodes[i].id
        &&& a.nodes[i].current_term <= c.nodes[i].current_term
        &&& a.nodes[i].commit_index <= c.nodes[i].commit_index
        &&& raft_node_laws::vote_stands(a.nodes[i], c.nodes[i])
    } by {
        assert(b.nodes[i].id == a.nodes[i].id);
    }
}

/// Ids tell places apart.
pub proof fn position_is(nodes: Seq<NodeV>, id: NodeId, i: int)
    requires
        raft_model::ids_ascend(nodes),
        0 <= i < nodes.len(),
        nodes[i].id == id,
    ensures
        raft_model::has_member(nodes, id),
        raft_model::position(nodes, id) == i,
{
    let p = raft_model::position(nodes, id);
    assert(0 <= p < nodes.len() && nodes[p].id == id);
    if p < i {
        assert(nodes[p].id < nodes[i].id);
    } else if i < p {
        assert(nodes[i].id < nodes[p].id);
    }
}

/// Members at different places have different ids.
pub proof fn different_places_different_ids(c: ClusterV, i: int, k: int)
    requires
        raft_model::ids_ascend(c.nodes),
        0 <= i < c.nodes.len(),
        0 <= k < c.nodes.len(),
        i != k,
    ensures
        c.nodes[i].id != c.nodes[k].id,
{
    if i < k {
        assert(c.nodes[i].id < c.nodes[k].id);
    } else {
        assert(c.nodes[k].id < c.nodes[i].id);
    }
}

/// The leader of a valid cluster has a place.
pub proof fn leader_has_place(c: ClusterV)
    requires
        c.wf(),
    ensures
        0 <= c.leader_at() < c.nodes.len(),
        c.nodes[c.leader_at()].id == c.leader_id,
{
}

/// The same ids keep their places.
pub proof fn same_ids_same_place(c: ClusterV, d: ClusterV)
    requires
        c.wf(),
        d.nodes.len() == c.nodes.len(),
        forall|i: int| 0 <= i < c.nodes.len() ==> (#[trigger] d.nodes[i]).id == c.nodes[i].id,
    ensures
        raft_model::ids_ascend(d.nodes),
        raft_model::has_member(d.nodes, c.leader_id),
        raft_model::position(d.nodes, c.leader_id) == c.leader_at(),
{
    leader_has_place(c);
    assert(raft_model::ids_ascend(d.nodes)) by {
        assert forall|i: int, j: int| 0 <= i < j < d.nodes.len() implies (
        #[trigger] d.nodes[i]).id < (#[trigger] d.nodes[j]).id by {
            assert(c.nodes[i].id < c.nodes[j].id);
        }
    }
    position_is(d.nodes, c.leader_id, c.leader_at());
}

/// What is common to the effects of all operations on one member: nothing but
/// this member and what is known of it has changed.
pub open spec fn only_member(before: ClusterV, after: ClusterV, i: int) -> bool {
    &&& after.leader_id == before.leader_id
    &&& after.connected == before.connected
    &&& after.clock_ticks == before.clock_ticks
    &&& after.current_term == before.current_term
    &&& after.nodes.len() == before.nodes.len()
    &&& after.next_index.len() == before.next_index.len()
    &&& after.match_index.len() == before.match_index.len()
    &&& forall|k: int|
        0 <= k < before.nodes.len() && k != i ==> #[trigger] after.nodes[k] == before.nodes[k]
    &&& after.nodes[i].election_elapsed <= before.nodes[i].election_elapsed
}

/// Replacing a member by a later state of itself keeps the cluster valid.
pub proof fn replacing_keeps(c: ClusterV, i: int, node: NodeV, term: Term, last: Index)
    requires
        c.wf(),
        bounded(c, term, last),
        0 <= i < c.nodes.len(),
        follows(c.nodes[i], node),
        node.wf(),
        node.current_term <= term,
        node.log.last_index() <= last,
    ensures
        c.with_node(i, node).wf(),
        bounded(c.with_node(i, node), term, last),
        advances(c, c.with_node(i, node)),
        only_member(c, c.with_node(i, node), i),
        c.with_node(i, node).leader_at() == c.leader_at(),
{
    let d = c.with_node(i, node);
    assert(c.member_ok(i));
    same_ids_same_place(c, d);
    assert forall|k: int| 0 <= k < d.nodes.len() implies #[trigger] d.member_ok(k) by {
        assert(c.member_ok(k));
    }
}

/// Changing what is known of a member keeps the cluster valid.
pub proof fn tracking_keeps(c: ClusterV, i: int, next: Index, matched: Index)
    requires
        c.wf(),
        0 <= i < c.nodes.len(),
        next >= 1,
        matched < u64::MAX,
    ensures
        c.with_next(i, next).wf(),
        c.with_progress(i, matched).wf(),
{
    let d = c.with_next(i, next);
    assert forall|k: int| 0 <= k < d.nodes.len() implies #[trigger] d.member_ok(k) by {
        assert(c.member_ok(k));
    }
    let e = c.with_progress(i, matched);
    assert forall|k: int| 0 <= k < e.nodes.len() implies #[trigger] e.member_ok(k) by {
        assert(c.member_ok(k));
    }
}

/// The entries that a leader sends follow the entry before them.
pub proof fn sent_entries_follow(c: ClusterV, l: int, next: Index)
    requires
        c.wf(),
        0 <= l < c.nodes.len(),
        c.nodes[l].log.base_index < next <= c.nodes[l].log.last_index() + 1,
    ensures
        memlog::contiguous(c.nodes[l].log.entries_from(next), next as int),
        c.nodes[l].log.entries_from(next).len() > 0 ==> c.nodes[l].log.entries_from(
            next,
        ).last().index == c.nodes[l].log.last_index(),
{
    let log = c.nodes[l].log;
    assert(c.member_ok(l));
    assert(log.last_index() == log.base_index + log.entries.len());
    let sent = log.entries_from(next);
    assert forall|k: int| 0 <= k < sent.len() implies (#[trigger] sent[k]).index == next + k by {
        assert(sent[k] == log.entries[log.before(next) + k]);
    }
}

/// Catching up changes the one member only, never takes a term or a commit
/// index back, and reaches no further than some log did.
pub proof fn catching_up_keeps(c: ClusterV, l: int, i: int, sent: bool, term: Term, last: Index)
    requires
        c.wf(),
        bounded(c, term, last),
        0 <= l < c.nodes.len(),
        0 <= i < c.nodes.len(),
        i != l,
    ensures
        ({
            let after = c.catch_up(l, i, sent).0;
            &&& after.wf()
            &&& bounded(after, term, last)
            &&& advances(c, after)
            &&& only_member(c, after, i)
        }),
    decreases
            (if sent {
                0int
            } else {
                1int
            }), c.next_index[i],
{
    let leader = c.nodes[l];
    let next = c.next_index[i];
    let end = leader.log.last_index();
    assert(c.member_ok(l));
    assert(c.member_ok(i));
    if next > end + 1 {
        let d = c.with_next(i, (end + 1) as u64);
        tracking_keeps(c, i, (end + 1) as u64, 0);
        catching_up_keeps(d, l, i, sent, term, last);
        advances_transitive(c, d, d.catch_up(l, i, sent).0);
    } else if next <= leader.log.base_index {
        if let Some(data) = leader.snapshot {
            if !sent {
                raft_node_laws::installing_keeps(
                    c.nodes[i],
                    leader.current_term,
                    data,
                    leader.commit_index,
                );
                let (node, result) = c.nodes[i].install_snapshot(
                    leader.current_term,
                    data,
                    leader.commit_index,
                );
                replacing_keeps(c, i, node, term, last);
                let d = c.with_node(i, node);
                if result == Ok::<bool, DbErrorV>(true) {
                    tracking_keeps(d, i, 1, data.last_included_index);
                    let e = d.with_progress(i, data.last_included_index);
                    catching_up_keeps(e, l, i, true, term, last);
                    advances_transitive(c, d, e);
                    advances_transitive(c, e, e.catch_up(l, i, true).0);
                }
            }
        }
    } else {
        let prev = (next - 1) as u64;
        let prev_term = if prev == 0 {
            Some(0)
        } else {
            leader.log.term_at(prev)
        };
        sent_entries_follow(c, l, next);
        if let Some(t) = prev_term {
            raft_node_laws::appending_keeps(
                c.nodes[i],
                leader.current_term,
                prev,
                t,
                leader.log.entries_from(next),
                leader.commit_index,
            );
            let (node, result) = c.nodes[i].append_entries(
                leader.current_term,
                prev,
                t,
                leader.log.entries_from(next),
                leader.commit_index,
            );
            replacing_keeps(c, i, node, term, last);
            let d = c.with_node(i, node);
            if result == Ok::<bool, DbErrorV>(true) {
                tracking_keeps(d, i, 1, end);
                advances_transitive(c, d, d.with_progress(i, end));
            } else if result is Ok && next > 1 {
                tracking_keeps(d, i, prev, 0);
                let e = d.with_next(i, prev);
                catching_up_keeps(e, l, i, sent, term, last);
                advances_transitive(c, d, e);
                advances_transitive(c, e, e.catch_up(l, i, sent).0);
            }
        } else if next > 1 {
            tracking_keeps(c, i, prev, 0);
            let e = c.with_next(i, prev);
            catching_up_keeps(e, l, i, sent, term, last);
            advances_transitive(c, e, e.catch_up(l, i, sent).0);
        }
    }
}

/// Replicating to one member changes that member only.
pub proof fn replicating_keeps(c: ClusterV, l: int, i: int, term: Term, last: Index)
    requires
        c.wf(),
        bounded(c, term, last),
        0 <= l < c.nodes.len(),
        0 <= i < c.nodes.len(),
    ensures
        ({
            let after = c.replicate(l, i).0;
            &&& after.wf()
            &&& bounded(after, term, last)
            &&& advances(c, after)
            &&& only_member(c, after, i)
            &&& i == l ==> after == c
        }),
{
    reveal(ClusterV::replicate);
    if i != l {
        catching_up_keeps(c, l, i, false, term, last);
    }
}

/// Nothing but members and what is known of them has changed, and the leader
/// at `l` has not changed at all.
pub open spec fn same_office(before: ClusterV, after: ClusterV, l: int) -> bool {
    &&& after.leader_id == before.leader_id
    &&& after.connected == before.connected
    &&& after.clock_ticks == before.clock_ticks
    &&& after.current_term == before.current_term
    &&& after.nodes.len() == before.nodes.len()
    &&& after.nodes[l] == before.nodes[l]
    &&& forall|k: int|
        0 <= k < before.nodes.len() ==> (#[trigger] after.nodes[k]).election_elapsed
            <= before.nodes[k].election_elapsed
}

/// Replicating to many members keeps the leader as it is.
pub proof fn replicating_from_keeps(
    c: ClusterV,
    l: int,
    k: int,
    end: int,
    acks: int,
    term: Term,
    last: Index,
)
    requires
        c.wf(),
        bounded(c, term, last),
        0 <= l < c.nodes.len(),
        0 <= k <= end <= c.nodes.len(),
    ensures
        ({
            let (after, result) = c.replicate_from(l, k, end, acks);
            &&& after.wf()
            &&& bounded(after, term, last)
            &&& advances(c, after)
            &&& same_office(c, after, l)
            &&& result matches Ok(n) ==> acks <= n <= acks + (end - k) - (if k <= l < end {
                1int
            } else {
                0int
            })
        }),
    decreases end - k,
{
    if k < end {
        if k == l {
            replicating_from_keeps(c, l, k + 1, end, acks, term, last);
        } else {
            replicating_keeps(c, l, k, term, last);
            let (d, result) = c.replicate(l, k);
            if let Ok(taken) = result {
                let more = if taken {
                    acks + 1
                } else {
                    acks
                };
                replicating_from_keeps(d, l, k + 1, end, more, term, last);
                advances_transitive(c, d, d.replicate_from(l, k + 1, end, more).0);
            }
        }
    }
}

/// A round of heartbeats keeps the leader as it is.
pub proof fn heartbeats_keep(c: ClusterV, term: Term, last: Index)
    requires
        c.wf(),
        bounded(c, term, last),
    ensures
        ({
            let (after, result) = c.heartbeat_round();
            &&& after.wf()
            &&& bounded(after, term, last)
            &&& advances(c, after)
            &&& same_office(c, after, c.leader_at())
            &&& after.leader_at() == c.leader_at()
        }),
{
    reveal(ClusterV::heartbeat_round);
    let l = c.leader_at();
    leader_has_place(c);
    replicating_from_keeps(
        c,
        l,
        0,
        c.nodes.len() as int,
        if c.connected[l] {
            1
        } else {
            0
        },
        term,
        last,
    );
    same_ids_same_place(c, c.heartbeat_round().0);
}

/// The commit point lies between what is committed and the end of the log. It
/// is a new one only where a quorum holds it and the leader has written it in
/// its own term, and it is the greatest such.
pub proof fn commit_point_is_greatest(c: ClusterV, l: int, candidate: Index)
    requires
        c.nodes[l].commit_index <= candidate,
    ensures
        ({
            let point = c.commit_point(l, candidate);
            let leader = c.nodes[l];
            &&& leader.commit_index <= point <= candidate
            &&& point > leader.commit_index ==> {
                &&& raft_model::count_reaching(c.match_index, point) >= c.quorum()
                &&& leader.log.term_at(point) == Some(leader.current_term)
            }
            &&& forall|j: Index|
                point < j <= candidate ==> !(#[trigger] raft_model::count_reaching(
                    c.match_index,
                    j,
                ) >= c.quorum() && leader.log.term_at(j) == Some(leader.current_term))
        }),
    decreases candidate,
{
    if candidate > c.nodes[l].commit_index {
        if !(raft_model::count_reaching(c.match_index, candidate) >= c.quorum()
            && c.nodes[l].log.term_at(candidate) == Some(c.nodes[l].current_term)) {
            commit_point_is_greatest(c, l, (candidate - 1) as u64);
        }
    }
}

/// Committing on the leader changes the leader only.
pub proof fn advancing_commit_keeps(c: ClusterV, l: int, term: Term, last: Index)
    requires
        c.wf(),
        bounded(c, term, last),
        0 <= l < c.nodes.len(),
    ensures
        c.advance_commit(l).wf(),
        bounded(c.advance_commit(l), term, last),
        advances(c, c.advance_commit(l)),
        only_member(c, c.advance_commit(l), l),
{
    let leader = c.nodes[l];
    assert(c.member_ok(l));
    if leader.commit_index <= leader.log.last_index() {
        commit_point_is_greatest(c, l, leader.log.last_index());
    }
    let point = c.commit_point(l, leader.log.last_index());
    replacing_keeps(c, l, leader.commit_to(point), term, last);
}

/// A new local entry keeps the node valid and is one more.
pub proof fn writing_keeps(node: NodeV, command: CommandV, term: Term)
    requires
        node.wf(),
        node.log.last_index() < u64::MAX,
    ensures
        ({
            let (after, result) = node.append_local(command, term);
            &&& after.wf()
            &&& follows(node, after)
            &&& after.current_term == node.current_term
            &&& after.role == node.role
            &&& after.commit_index == node.commit_index
            &&& result matches Ok(entry) ==> entry.index == node.log.last_index() + 1
                && after.log.last_index() == entry.index && after.log.get(entry.index) == Some(
                entry,
            )
            &&& result is Err ==> after.log == node.log
        }),
{
}

/// A proposal makes logs reach at most one index further.
pub proof fn proposing_keeps(c: ClusterV, command: CommandV, term: Term, last: Index)
    requires
        c.wf(),
        last + 1 < u64::MAX,
        bounded(c, term, last),
    ensures
        ({
            let (after, result) = c.propose(command);
            &&& after.wf()
            &&& bounded(after, term, (last + 1) as u64)
            &&& advances(c, after)
            &&& after.leader_id == c.leader_id
            &&& after.clock_ticks == c.clock_ticks
            &&& after.connected == c.connected
            &&& after.current_term == c.current_term
        }),
{
    reveal(ClusterV::propose);
    let l = c.leader_at();
    leader_has_place(c);
    assert(c.member_ok(l));
    let leader = c.nodes[l];
    let top = (last + 1) as u64;
    if leader.role == Role::Leader {
        writing_keeps(leader, command, leader.current_term);
        let (node, result) = leader.append_local(command, leader.current_term);
        replacing_keeps(c, l, node, term, top);
        let a = c.with_node(l, node);
        if let Ok(entry) = result {
            tracking_keeps(a, l, 1, entry.index);
            let b = a.with_progress(l, entry.index);
            advances_transitive(c, a, b);
            let end = c.nodes.len() as int;
            replicating_from_keeps(b, l, 0, end, 0, term, top);
            let (d, r) = b.replicate_from(l, 0, end, 0);
            advances_transitive(c, b, d);
            if r is Ok {
                advancing_commit_keeps(d, l, term, top);
                let e = d.advance_commit(l);
                advances_transitive(c, d, e);
                replicating_from_keeps(e, l, 0, end, 0, term, top);
                advances_transitive(c, e, e.replicate_from(l, 0, end, 0).0);
            }
        }
    }
}

/// Asking for votes keeps every log and every commit index.
pub proof fn collecting_keeps(
    c: ClusterV,
    i: int,
    request: RequestVote,
    k: int,
    end: int,
    votes: int,
    term: Term,
    last: Index,
)
    requires
        c.wf(),
        bounded(c, term, last),
        request.term <= term,
        0 <= i < c.nodes.len(),
        request.candidate_id == c.nodes[i].id,
        0 <= k <= end <= c.nodes.len(),
    ensures
        ({
            let (after, n, stopped) = c.collect_votes(i, request, k, end, votes);
            &&& after.wf()
            &&& bounded(after, term, last)
            &&& advances(c, after)
            &&& after.leader_id == c.leader_id
            &&& after.clock_ticks == c.clock_ticks
            &&& after.connected == c.connected
            &&& votes <= n <= votes + (end - k) - (if k <= i < end {
                1int
            } else {
                0int
            })
            &&& !stopped ==> after.nodes[i] == c.nodes[i] && after.current_term == c.current_term
            &&& forall|j: int|
                0 <= j < c.nodes.len() ==> (#[trigger] after.nodes[j]).log == c.nodes[j].log
                    && after.nodes[j].commit_index == c.nodes[j].commit_index
        }),
    decreases end - k,
{
    if k < end {
        if k == i || !(c.connected[i] && c.connected[k]) {
            collecting_keeps(c, i, request, k + 1, end, votes, term, last);
        } else {
            assert(c.member_ok(k));
            assert(c.member_ok(i));
            different_places_different_ids(c, i, k);
            raft_node_laws::voting_keeps(c.nodes[k], request);
            let (voter, response) = c.nodes[k].request_vote(request);
            replacing_keeps(c, k, voter, term, last);
            let d = c.with_node(k, voter);
            if response.term > request.term {
                raft_node_laws::becoming_follower_keeps(d.nodes[i], response.term);
                let node = d.nodes[i].become_follower(response.term);
                replacing_keeps(d, i, node, term, last);
                let e = ClusterV { current_term: response.term, ..d.with_node(i, node) };
                assert forall|j: int| 0 <= j < e.nodes.len() implies #[trigger] e.member_ok(j) by {
                    assert(d.with_node(i, node).member_ok(j));
                }
                advances_transitive(c, d, e);
            } else {
                let more = if response.vote_granted {
                    votes + 1
                } else {
                    votes
                };
                collecting_keeps(d, i, request, k + 1, end, more, term, last);
                advances_transitive(c, d, d.collect_votes(i, request, k + 1, end, more).0);
            }
        }
    }
}

/// Taking office keeps every log, and makes one leader.
pub proof fn crowning_keeps(c: ClusterV, i: int, term: Term, top: Term, last: Index)
    requires
        c.wf(),
        bounded(c, top, last),
        term <= top,
        0 <= i < c.nodes.len(),
    ensures
        ({
            let after = c.crown(i, term);
            &&& after.wf()
            &&& bounded(after, top, last)
            &&& advances(c, after)
            &&& after.leader_id == c.nodes[i].id
            &&& after.leader_at() == i
            &&& after.nodes[i].role == Role::Leader
            &&& after.clock_ticks == c.clock_ticks
        }),
{
    reveal(ClusterV::crown);
    let d = c.crown(i, term);
    assert(c.member_ok(i));
    assert forall|k: int| 0 <= k < c.nodes.len() implies (#[trigger] d.nodes[k]).id
        == c.nodes[k].id && c.nodes[k].current_term <= d.nodes[k].current_term
        && d.nodes[k].current_term <= top && d.nodes[k].log == c.nodes[k].log
        && d.nodes[k].commit_index == c.nodes[k].commit_index && d.member_ok(k)
        && raft_node_laws::vote_stands(c.nodes[k], d.nodes[k]) by {
        assert(c.member_ok(k));
        if k != i {
            raft_node_laws::becoming_follower_keeps(c.nodes[k], term);
        }
    }
    same_ids_same_place(c, d);
    position_is(d.nodes, d.leader_id, i);
}

/// Standing for election takes the candidate one term up.
pub proof fn standing_keeps(c: ClusterV, i: int, term: Term, last: Index)
    requires
        c.wf(),
        term < u64::MAX,
        bounded(c, term, last),
        0 <= i < c.nodes.len(),
    ensures
        c.stood(i).wf(),
        bounded(c.stood(i), (term + 1) as u64, last),
        advances(c, c.stood(i)),
        c.stood(i).nodes[i].current_term == c.nodes[i].current_term + 1,
        c.stood(i).leader_id == c.leader_id,
        c.stood(i).clock_ticks == c.clock_ticks,
        c.stood(i).connected == c.connected,
{
    reveal(ClusterV::stood);
    assert(c.member_ok(i));
    replacing_keeps(c, i, c.nodes[i].become_candidate(), (term + 1) as u64, last);
    let d = c.with_node(i, c.nodes[i].become_candidate());
    let e = c.stood(i);
    assert forall|k: int| 0 <= k < e.nodes.len() implies #[trigger] e.member_ok(k) by {
        assert(d.member_ok(k));
    }
}

/// An election takes no term more than one up.
pub proof fn electing_keeps(c: ClusterV, i: int, term: Term, last: Index)
    requires
        c.wf(),
        term < u64::MAX,
        bounded(c, term, last),
        0 <= i < c.nodes.len(),
    ensures
        ({
            let (after, result) = c.elect(i);
            &&& after.wf()
            &&& bounded(after, (term + 1) as u64, last)
            &&& advances(c, after)
            &&& after.clock_ticks == c.clock_ticks
            &&& result matches Ok(outcome) ==> (if outcome.elected {
                after.leader_id == c.nodes[i].id && outcome.leader_id == after.leader_id
                    && outcome.term == c.nodes[i].current_term + 1 && outcome.votes_received
                    >= c.quorum()
            } else {
                after.leader_id == c.leader_id && outcome.leader_id == c.leader_id
            })
        }),
{
    reveal(ClusterV::elect);
    let top = (term + 1) as u64;
    standing_keeps(c, i, term, last);
    let stood = c.stood(i);
    let request = stood.ballot(i);
    let end = c.nodes.len() as int;
    collecting_keeps(stood, i, request, 0, end, 1, top, last);
    let (asked, votes, stopped) = stood.collect_votes(i, request, 0, end, 1);
    advances_transitive(c, stood, asked);
    if !stopped {
        if votes >= c.quorum() {
            crowning_keeps(asked, i, request.term, top, last);
            let crowned = asked.crown(i, request.term);
            advances_transitive(c, asked, crowned);
            heartbeats_keep(crowned, top, last);
            advances_transitive(c, crowned, crowned.heartbeat_round().0);
        } else {
            assert(asked.member_ok(i));
            let node = NodeV { election_elapsed: 0, ..asked.nodes[i].increase_backoff() };
            replacing_keeps(asked, i, node, top, last);
            advances_transitive(c, asked, asked.with_node(i, node));
        }
    }
}

/// The first ringing election clock belongs to a member.
pub proof fn first_timeout_is_a_place(nodes: Seq<NodeV>, k: int)
    requires
        0 <= k <= nodes.len(),
    ensures
        match raft_model::first_timeout(nodes, k) {
            Some(i) => k <= i < nodes.len() && nodes[i].election_tick().1 && forall|j: int|
                k <= j < i ==> !(#[trigger] nodes[j]).election_tick().1,
            None => forall|j: int| k <= j < nodes.len() ==> !(#[trigger] nodes[j]).election_tick().1,
        },
    decreases nodes.len() - k,
{
    if k < nodes.len() && !nodes[k].election_tick().1 {
        first_timeout_is_a_place(nodes, k + 1);
    }
}

/// Ticking clocks changes clocks only.
pub proof fn pulsing_keeps(c: ClusterV, term: Term, last: Index)
    requires
        c.wf(),
        c.clock_ticks < u64::MAX,
        bounded(c, term, last),
    ensures
        c.pulse().0.wf(),
        bounded(c.pulse().0, term, last),
        advances(c, c.pulse().0),
        c.pulse().0.leader_id == c.leader_id,
        c.pulse().0.clock_ticks == c.clock_ticks + 1,
        forall|k: int|
            0 <= k < c.nodes.len() ==> (#[trigger] c.pulse().0.nodes[k]).election_elapsed
                <= c.clock_ticks,
{
    let d = c.pulse().0;
    let l = c.leader_at();
    leader_has_place(c);
    assert(c.member_ok(l));
    assert forall|k: int| 0 <= k < c.nodes.len() implies (#[trigger] d.nodes[k]).id
        == c.nodes[k].id && d.member_ok(k) && d.nodes[k].log == c.nodes[k].log
        && d.nodes[k].current_term == c.nodes[k].current_term && d.nodes[k].commit_index
        == c.nodes[k].commit_index && d.nodes[k].election_elapsed <= c.clock_ticks by {
        assert(c.member_ok(k));
    }
    same_ids_same_place(c, d);
}

pub proof fn ticking_elections_keeps(c: ClusterV, term: Term, last: Index)
    requires
        c.wf(),
        bounded(c, term, last),
        forall|k: int|
            0 <= k < c.nodes.len() ==> (#[trigger] c.nodes[k]).election_elapsed < c.clock_ticks,
    ensures
        c.tick_elections().wf(),
        bounded(c.tick_elections(), term, last),
        advances(c, c.tick_elections()),
        c.tick_elections().leader_id == c.leader_id,
        c.tick_elections().clock_ticks == c.clock_ticks,
{
    let d = c.tick_elections();
    assert forall|k: int| 0 <= k < c.nodes.len() implies (#[trigger] d.nodes[k]).id
        == c.nodes[k].id && d.member_ok(k) && d.nodes[k].log == c.nodes[k].log
        && d.nodes[k].current_term == c.nodes[k].current_term && d.nodes[k].commit_index
        == c.nodes[k].commit_index by {
        assert(c.member_ok(k));
    }
    same_ids_same_place(c, d);
}

/// Elections that a tick brings take no term more than one up.
pub proof fn maybe_electing_keeps(c: ClusterV, term: Term, last: Index)
    requires
        c.wf(),
        term < u64::MAX,
        bounded(c, term, last),
        forall|k: int|
            0 <= k < c.nodes.len() ==> (#[trigger] c.nodes[k]).election_elapsed < c.clock_ticks,
    ensures
        c.maybe_elect().0.wf(),
        bounded(c.maybe_elect().0, (term + 1) as u64, last),
        advances(c, c.maybe_elect().0),
        c.maybe_elect().0.clock_ticks == c.clock_ticks,
{
    let d = c.tick_elections();
    ticking_elections_keeps(c, term, last);
    first_timeout_is_a_place(c.nodes, 0);
    if let Some(i) = raft_model::first_timeout(c.nodes, 0) {
        electing_keeps(d, i, term, last);
        let (e, result) = d.elect(i);
        advances_transitive(c, d, e);
        heartbeats_keep(e, (term + 1) as u64, last);
        advances_transitive(c, e, e.heartbeat_round().0);
    }
}

/// A tick moves the clock by one and takes no term more than one up.
pub proof fn ticking_keeps(c: ClusterV, term: Term, last: Index)
    requires
        c.wf(),
        c.clock_ticks < u64::MAX,
        term < u64::MAX,
        bounded(c, term, last),
    ensures
        c.tick().0.wf(),
        bounded(c.tick().0, (term + 1) as u64, last),
        advances(c, c.tick().0),
        c.tick().0.clock_ticks == c.clock_ticks + 1,
{
    reveal(ClusterV::tick);
    let (d, due) = c.pulse();
    pulsing_keeps(c, term, last);
    if due {
        heartbeats_keep(d, term, last);
        let e = d.heartbeat_round().0;
        advances_transitive(c, d, e);
        leader_has_place(d);
        maybe_electing_keeps(e, term, last);
        advances_transitive(c, e, e.maybe_elect().0);
    } else {
        maybe_electing_keeps(d, term, last);
        advances_transitive(c, d, d.maybe_elect().0);
    }
}

/// A valid cluster is bounded by what the machine can count.
pub proof fn valid_is_bounded(c: ClusterV)
    requires
        c.wf(),
    ensures
        bounded(c, u64::MAX, (u64::MAX - 1) as u64),
{
    let last = (u64::MAX - 1) as u64;
    assert forall|i: int| 0 <= i < c.nodes.len() implies (#[trigger] c.nodes[i]).current_term
        <= u64::MAX && c.nodes[i].log.last_index() <= last by {
        assert(c.member_ok(i));
    }
}

/// With room for `n` ticks, a tick leaves room for all but one of them, and
/// takes no room from the logs.
pub proof fn ticking_takes_room(c: ClusterV, n: int)
    requires
        c.wf(),
        n >= 1,
        c.room(n),
    ensures
        c.tick().0.wf(),
        c.tick().0.room(n - 1),
        c.tick().0.clock_ticks == c.clock_ticks + 1,
        advances(c, c.tick().0),
        forall|m: int| c.log_room(m) ==> #[trigger] c.tick().0.log_room(m),
{
    let term = (u64::MAX - n) as u64;
    valid_is_bounded(c);
    ticking_keeps(c, term, (u64::MAX - 1) as u64);
    assert forall|m: int| c.log_room(m) implies #[trigger] c.tick().0.log_room(m) by {
        log_bound(c, m);
        let last = (u64::MAX - 1 - m) as u64;
        if 0 <= m <= u64::MAX - 1 {
            ticking_keeps(c, term, last);
        } else {
            out_of_log_range(c.tick().0, m);
        }
    }
}

/// Room for `m` entries in every log is a bound on the last indexes.
proof fn log_bound(c: ClusterV, m: int)
    requires
        c.wf(),
        c.log_room(m),
    ensures
        0 <= m ==> m <= u64::MAX - 1,
        0 <= m ==> forall|i: int|
            0 <= i < c.nodes.len() ==> (#[trigger] c.nodes[i]).log.last_index() <= u64::MAX - 1
                - m,
{
    leader_has_place(c);
    assert(c.nodes[c.leader_at()].log.last_index() + m < u64::MAX);
}

/// Every valid log leaves room for a negative number of entries.
proof fn out_of_log_range(d: ClusterV, m: int)
    requires
        d.wf(),
        m < 0,
    ensures
        d.log_room(m),
{
    assert forall|i: int| 0 <= i < d.nodes.len() implies (#[trigger] d.nodes[i]).log.last_index()
        + m < u64::MAX by {
        assert(d.member_ok(i));
    }
}

/// With room for `n` entries, a proposal leaves room for all but one of them,
/// and takes no room from terms and clock.
pub proof fn proposing_takes_room(c: ClusterV, command: CommandV, n: int)
    requires
        c.wf(),
        n >= 1,
        c.log_room(n),
    ensures
        c.propose(command).0.wf(),
        c.propose(command).0.log_room(n - 1),
        c.propose(command).0.clock_ticks == c.clock_ticks,
        advances(c, c.propose(command).0),
        forall|m: int| c.room(m) ==> #[trigger] c.propose(command).0.room(m),
{
    log_bound(c, n);
    valid_is_bounded(c);
    let last = (u64::MAX - 1 - n) as u64;
    proposing_keeps(c, command, u64::MAX, last);
    let d = c.propose(command).0;
    assert forall|m: int| c.room(m) implies #[trigger] d.room(m) by {
        if m <= u64::MAX {
            if m >= 0 {
                proposing_keeps(c, command, (u64::MAX - m) as u64, last);
            } else {
                assert forall|i: int| 0 <= i < d.nodes.len() implies (
                #[trigger] d.nodes[i]).current_term + m <= u64::MAX by {}
            }
        }
    }
}

/// A round of heartbeats takes no room.
pub proof fn heartbeats_take_no_room(c: ClusterV)
    requires
        c.wf(),
    ensures
        c.heartbeat_round().0.wf(),
        c.heartbeat_round().0.clock_ticks == c.clock_ticks,
        advances(c, c.heartbeat_round().0),
        forall|m: int| c.room(m) ==> #[trigger] c.heartbeat_round().0.room(m),
        forall|m: int| c.log_room(m) ==> #[trigger] c.heartbeat_round().0.log_room(m),
{
    valid_is_bounded(c);
    let most = (u64::MAX - 1) as u64;
    heartbeats_keep(c, u64::MAX, most);
    let d = c.heartbeat_round().0;
    assert forall|m: int| c.room(m) implies #[trigger] d.room(m) by {
        if 0 <= m <= u64::MAX {
            heartbeats_keep(c, (u64::MAX - m) as u64, most);
        }
    }
    assert forall|m: int| c.log_room(m) implies #[trigger] d.log_room(m) by {
        log_bound(c, m);
        if 0 <= m {
            heartbeats_keep(c, u64::MAX, (u64::MAX - 1 - m) as u64);
        } else {
            out_of_log_range(d, m);
        }
    }
}

} // verus!
