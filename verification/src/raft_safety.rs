//! What elections and replication guarantee.
use vstd::prelude::*;

use crate::memlog;
use crate::raft_laws;
use crate::raft_laws::advances;
use crate::raft_model;
use crate::raft_model::ClusterV;
use crate::raft_node;
use crate::raft_node::{
    NodeV, RequestVote, Role, DEFAULT_ELECTION_TIMEOUT_BASE_TICKS,
    DEFAULT_ELECTION_TIMEOUT_SPREAD_TICKS, MAX_ELECTION_BACKOFF_EXPONENT,
    MIN_ELECTION_TIMEOUT_TICKS,
};
use crate::raft_node_laws;
use crate::snapshot_codec::SnapshotDataV;
use crate::state_machine;
use crate::types::{CommandV, DbErrorV, Index, LogEntryV, NodeId, Term};

verus! {

/// There is at most one member in the role of leader.
pub proof fn at_most_one_leader(c: ClusterV, i: int, j: int)
    requires
        c.wf(),
        0 <= i < c.nodes.len(),
        0 <= j < c.nodes.len(),
        c.nodes[i].role == Role::Leader,
        c.nodes[j].role == Role::Leader,
    ensures
        i == j,
        c.nodes[i].id == c.leader_id,
{
    assert(c.member_ok(i));
    assert(c.member_ok(j));
    if i != j {
        raft_laws::different_places_different_ids(c, i, j);
    }
}

/// A member that has granted a vote grants none to anybody else in that term.
pub proof fn one_vote_per_term(node: NodeV, first: RequestVote, second: RequestVote)
    requires
        node.request_vote(first).1.vote_granted,
        node.request_vote(first).0.request_vote(second).1.vote_granted,
        first.term == second.term,
        second.candidate_id != node.id,
    ensures
        first.candidate_id == second.candidate_id,
{
    reveal(NodeV::request_vote);
}

/// A vote goes only to a candidate whose log is at least as far as the voter's,
/// and never to one of an earlier term.
pub proof fn votes_go_to_the_up_to_date(node: NodeV, request: RequestVote)
    requires
        node.request_vote(request).1.vote_granted,
    ensures
        node.current_term <= request.term,
        node.up_to_date(request),
        node.request_vote(request).0.voted_for == Some(request.candidate_id),
        node.request_vote(request).0.current_term == request.term,
{
    reveal(NodeV::request_vote);
}

/// The timeout doubles with every lost round up to the fourth, is spread over
/// five ticks, and is never below the minimum.
pub proof fn election_timeouts_are_bounded(id: NodeId, term: Term, rounds: u32)
    ensures
        ({
            let base = DEFAULT_ELECTION_TIMEOUT_BASE_TICKS * raft_node::backoff_multiplier(rounds);
            let timeout = raft_node::election_timeout(id, term, rounds);
            &&& base <= timeout < base + DEFAULT_ELECTION_TIMEOUT_SPREAD_TICKS
            &&& MIN_ELECTION_TIMEOUT_TICKS <= timeout
        }),
        rounds >= MAX_ELECTION_BACKOFF_EXPONENT ==> raft_node::election_timeout(id, term, rounds)
            == raft_node::election_timeout(id, term, MAX_ELECTION_BACKOFF_EXPONENT),
        rounds < MAX_ELECTION_BACKOFF_EXPONENT ==> raft_node::backoff_multiplier(
            (rounds + 1) as u32,
        ) == 2 * raft_node::backoff_multiplier(rounds),
{
}

/// While a leader is in office, nobody is in an earlier term.
pub open spec fn office_holds(c: ClusterV) -> bool {
    c.nodes[c.leader_at()].role == Role::Leader ==> forall|i: int|
        0 <= i < c.nodes.len() ==> c.nodes[c.leader_at()].current_term <= (
        #[trigger] c.nodes[i]).current_term
}

/// Where the leader has not changed and no term has gone back, the office
/// holds.
proof fn unchanged_leader_keeps_office(c: ClusterV, d: ClusterV)
    requires
        c.wf(),
        office_holds(c),
        advances(c, d),
        d.leader_id == c.leader_id,
        d.nodes[c.leader_at()].current_term == c.nodes[c.leader_at()].current_term || d.nodes[
            c.leader_at()
        ].role != Role::Leader,
        d.nodes[c.leader_at()].role == Role::Leader ==> c.nodes[c.leader_at()].role
            == Role::Leader,
    ensures
        office_holds(d),
{
    raft_laws::same_ids_same_place(c, d);
    if d.nodes[d.leader_at()].role == Role::Leader {
        assert forall|i: int| 0 <= i < d.nodes.len() implies d.nodes[d.leader_at()].current_term
            <= (#[trigger] d.nodes[i]).current_term by {
            assert(c.nodes[c.leader_at()].current_term <= c.nodes[i].current_term);
        }
    }
}

/// A round of heartbeats leaves the leader in its office.
pub proof fn heartbeats_keep_office(c: ClusterV)
    requires
        c.wf(),
        office_holds(c),
    ensures
        office_holds(c.heartbeat_round().0),
{
    raft_laws::valid_is_bounded(c);
    raft_laws::heartbeats_keep(c, u64::MAX, (u64::MAX - 1) as u64);
    unchanged_leader_keeps_office(c, c.heartbeat_round().0);
}

/// A proposal leaves the leader in its office.
pub proof fn proposals_keep_office(c: ClusterV, command: CommandV)
    requires
        c.wf(),
        c.log_room(1),
        office_holds(c),
    ensures
        office_holds(c.propose(command).0),
{
    reveal(ClusterV::propose);
    raft_laws::valid_is_bounded(c);
    raft_laws::leader_has_place(c);
    raft_laws::proposing_takes_room(c, command, 1);
    let l = c.leader_at();
    assert(c.member_ok(l));
    let leader = c.nodes[l];
    if leader.role == Role::Leader {
        let most = (u64::MAX - 1) as u64;
        raft_laws::writing_keeps(leader, command, leader.current_term);
        let (node, result) = leader.append_local(command, leader.current_term);
        raft_laws::replacing_keeps(c, l, node, u64::MAX, most);
        let a = c.with_node(l, node);
        if let Ok(entry) = result {
            raft_laws::tracking_keeps(a, l, 1, entry.index);
            let b = a.with_progress(l, entry.index);
            let end = c.nodes.len() as int;
            raft_laws::replicating_from_keeps(b, l, 0, end, 0, u64::MAX, most);
            let (d, r) = b.replicate_from(l, 0, end, 0);
            if r is Ok {
                raft_laws::advancing_commit_keeps(d, l, u64::MAX, most);
                let e = d.advance_commit(l);
                raft_laws::replicating_from_keeps(e, l, 0, end, 0, u64::MAX, most);
            }
        }
        let after = c.propose(command).0;
        assert(after.nodes[l].current_term == leader.current_term);
        raft_laws::proposing_keeps(c, command, u64::MAX, (u64::MAX - 2) as u64);
        unchanged_leader_keeps_office(c, after);
    }
}

/// Asking for votes puts nobody into office, and takes no term back.
proof fn collecting_keeps_office(
    c: ClusterV,
    i: int,
    request: RequestVote,
    k: int,
    end: int,
    votes: int,
)
    requires
        c.wf(),
        office_holds(c),
        0 <= i < c.nodes.len(),
        request.candidate_id == c.nodes[i].id,
        0 <= k <= end <= c.nodes.len(),
    ensures
        office_holds(c.collect_votes(i, request, k, end, votes).0),
    decreases end - k,
{
    if k < end {
        if k == i || !(c.connected[i] && c.connected[k]) {
            collecting_keeps_office(c, i, request, k + 1, end, votes);
        } else {
            let most = (u64::MAX - 1) as u64;
            raft_laws::valid_is_bounded(c);
            raft_laws::leader_has_place(c);
            assert(c.member_ok(k));
            assert(c.member_ok(i));
            raft_laws::different_places_different_ids(c, i, k);
            raft_node_laws::voting_keeps(c.nodes[k], request);
            let (voter, response) = c.nodes[k].request_vote(request);
            raft_laws::replacing_keeps(c, k, voter, u64::MAX, most);
            let d = c.with_node(k, voter);
            assert(voter.role == Role::Leader ==> voter.current_term == c.nodes[k].current_term)
                by {
                reveal(NodeV::request_vote);
            }
            unchanged_leader_keeps_office(c, d);
            if response.term > request.term {
                raft_laws::leader_has_place(d);
                raft_node_laws::becoming_follower_keeps(d.nodes[i], response.term);
                let node = d.nodes[i].become_follower(response.term);
                raft_laws::valid_is_bounded(d);
                raft_laws::replacing_keeps(d, i, node, u64::MAX, most);
                let e = d.with_node(i, node);
                unchanged_leader_keeps_office(d, e);
                let f = ClusterV { current_term: response.term, ..e };
                assert(f.leader_at() == e.leader_at());
            } else {
                let more = if response.vote_granted {
                    votes + 1
                } else {
                    votes
                };
                collecting_keeps_office(d, i, request, k + 1, end, more);
            }
        }
    }
}

/// An election keeps offices apart: a new leader is in a later term than the
/// one before it was, and than every member was that it could reach.
pub proof fn elections_keep_office(c: ClusterV, i: int)
    requires
        c.wf(),
        c.term_room(1),
        office_holds(c),
        0 <= i < c.nodes.len(),
    ensures
        office_holds(c.elect(i).0),
        c.elect(i).1 matches Ok(outcome) ==> outcome.elected && c.nodes[c.leader_at()].role
            == Role::Leader ==> outcome.term > c.nodes[c.leader_at()].current_term,
{
    reveal(ClusterV::elect);
    let most = (u64::MAX - 1) as u64;
    raft_laws::valid_is_bounded(c);
    raft_laws::leader_has_place(c);
    raft_laws::standing_keeps(c, i, most, most);
    raft_laws::electing_keeps(c, i, most, most);
    let stood = c.stood(i);
    assert(office_holds(stood)) by {
        reveal(ClusterV::stood);
        unchanged_leader_keeps_office(c, stood);
    }
    let request = stood.ballot(i);
    let end = c.nodes.len() as int;
    collecting_keeps_office(stood, i, request, 0, end, 1);
    raft_laws::valid_is_bounded(stood);
    raft_laws::collecting_keeps(stood, i, request, 0, end, 1, u64::MAX, most);
    let (asked, votes, stopped) = stood.collect_votes(i, request, 0, end, 1);
    if !stopped {
        raft_laws::valid_is_bounded(asked);
        raft_laws::leader_has_place(asked);
        if votes >= c.quorum() {
            raft_laws::crowning_keeps(asked, i, request.term, u64::MAX, most);
            let crowned = asked.crown(i, request.term);
            assert(office_holds(crowned)) by {
                reveal(ClusterV::crown);
            }
            heartbeats_keep_office(crowned);
        } else {
            assert(asked.member_ok(i));
            let node = NodeV { election_elapsed: 0, ..asked.nodes[i].increase_backoff() };
            raft_laws::replacing_keeps(asked, i, node, u64::MAX, most);
            unchanged_leader_keeps_office(asked, asked.with_node(i, node));
        }
    }
}

/// A tick keeps offices apart.
pub proof fn ticks_keep_office(c: ClusterV)
    requires
        c.wf(),
        c.room(1),
        office_holds(c),
    ensures
        office_holds(c.tick().0),
{
    reveal(ClusterV::tick);
    let most = (u64::MAX - 1) as u64;
    raft_laws::valid_is_bounded(c);
    raft_laws::leader_has_place(c);
    let (d, due) = c.pulse();
    raft_laws::pulsing_keeps(c, most, most);
    unchanged_leader_keeps_office(c, d);
    raft_laws::leader_has_place(d);
    let e = if due {
        raft_laws::heartbeats_keep(d, most, most);
        heartbeats_keep_office(d);
        d.heartbeat_round().0
    } else {
        d
    };
    raft_laws::leader_has_place(e);
    raft_laws::ticking_elections_keeps(e, most, most);
    let f = e.tick_elections();
    unchanged_leader_keeps_office(e, f);
    raft_laws::first_timeout_is_a_place(e.nodes, 0);
    if let Some(i) = raft_model::first_timeout(e.nodes, 0) {
        elections_keep_office(f, i);
        raft_laws::electing_keeps(f, i, most, most);
        let g = f.elect(i).0;
        heartbeats_keep_office(g);
    }
}

/// A cluster that was just put together has its leader in office, and everybody
/// in its term.
pub proof fn assembled_in_office(nodes: Seq<NodeV>, term: Term, leader_id: NodeId)
    requires
        raft_model::ids_ascend(nodes),
        raft_model::has_member(nodes, leader_id),
        forall|i: int| 0 <= i < nodes.len() ==> (#[trigger] nodes[i]).current_term <= term,
    ensures
        office_holds(raft_model::assembled(nodes, term, leader_id)),
        ({
            let c = raft_model::assembled(nodes, term, leader_id);
            forall|i: int|
                0 <= i < nodes.len() ==> (#[trigger] c.nodes[i]).current_term == term
        }),
{
    let c = raft_model::assembled(nodes, term, leader_id);
    let at = raft_model::position(nodes, leader_id);
    assert(raft_model::ids_ascend(c.nodes)) by {
        assert forall|a: int, b: int| 0 <= a < b < c.nodes.len() implies (#[trigger] c.nodes[a]).id
            < (#[trigger] c.nodes[b]).id by {
            assert(nodes[a].id < nodes[b].id);
        }
    }
    assert(c.nodes[at].id == leader_id);
    raft_laws::position_is(c.nodes, leader_id, at);
}

/// A member that has taken a leader's entries holds every one of them, behind
/// the entry that they follow.
pub proof fn taken_entries_are_held(
    node: NodeV,
    leader_term: Term,
    prev: Index,
    prev_term: Term,
    entries: Seq<LogEntryV>,
    leader_commit: Index,
    k: int,
)
    requires
        node.wf(),
        memlog::contiguous(entries, prev + 1),
        node.append_entries(leader_term, prev, prev_term, entries, leader_commit).1 == Ok::<
            bool,
            DbErrorV,
        >(true),
        0 <= k < entries.len(),
    ensures
        ({
            let after = node.append_entries(
                leader_term,
                prev,
                prev_term,
                entries,
                leader_commit,
            ).0;
            &&& after.log.get(entries[k].index) matches Some(held)
            &&& held.term == entries[k].term
            &&& prev > 0 ==> after.log.term_at(prev) == Some(prev_term)
        }),
{
    reveal(NodeV::append_entries);
    raft_node_laws::becoming_follower_keeps(node, leader_term);
    let heeded = node.heed(leader_term);
    raft_node::first_new_entry_shape(heeded.log, entries, prev, 0);
    let (j, conflict) = raft_node::first_new_entry(heeded.log, entries, 0);
    let kept = if conflict {
        heeded.cut(entries[j].index).0
    } else {
        heeded
    };
    assert(entries[k].index == prev + 1 + k);
    if conflict {
        assert(entries[j].index == prev + 1 + j);
        assert(kept.log == heeded.log.truncated_from(entries[j].index));
        memlog::truncation_keeps_the_prefix(heeded.log, entries[j].index, entries[k].index);
        memlog::truncation_keeps_the_prefix(heeded.log, entries[j].index, prev);
    }
    let merged = heeded.merge(entries).0;
    if j < entries.len() {
        let fresh = entries.skip(j);
        assert(kept.log.last_index() == prev + j);
        assert(memlog::contiguous(fresh, kept.log.last_index() + 1));
        assert(entries[entries.len() - 1].index == prev + entries.len());
        assert(merged.log == kept.log.appended(fresh));
        memlog::appended_entries_are_read_back(kept.log, fresh, entries[k].index);
        memlog::appended_entries_are_read_back(kept.log, fresh, prev);
        if k >= j {
            assert(fresh[k - j] == entries[k]);
        }
    }
}

/// A member that hears of a leader's commit index goes no further than that.
pub open spec fn told_of(before: NodeV, after: NodeV, leader: NodeV) -> bool {
    after.commit_index <= before.commit_index || after.commit_index <= leader.commit_index
}

proof fn appending_commits_no_further(
    node: NodeV,
    leader: NodeV,
    prev: Index,
    prev_term: Term,
    entries: Seq<LogEntryV>,
)
    ensures
        told_of(
            node,
            node.append_entries(
                leader.current_term,
                prev,
                prev_term,
                entries,
                leader.commit_index,
            ).0,
            leader,
        ),
{
    reveal(NodeV::append_entries);
}

proof fn installing_commits_no_further(node: NodeV, leader: NodeV, data: SnapshotDataV)
    requires
        data.last_included_index <= leader.commit_index,
    ensures
        told_of(
            node,
            node.install_snapshot(leader.current_term, data, leader.commit_index).0,
            leader,
        ),
{
    reveal(NodeV::install_snapshot);
}

/// Catching up takes a member's commit index no further than its leader's, and
/// changes what is known of that member only.
pub proof fn catching_up_commits_no_further(c: ClusterV, l: int, i: int, sent: bool)
    requires
        c.wf(),
        0 <= l < c.nodes.len(),
        0 <= i < c.nodes.len(),
        i != l,
    ensures
        ({
            let after = c.catch_up(l, i, sent).0;
            &&& told_of(c.nodes[i], after.nodes[i], c.nodes[l])
            &&& forall|k: int|
                0 <= k < c.nodes.len() && k != i ==> #[trigger] after.match_index[k]
                    == c.match_index[k]
        }),
    decreases
            (if sent {
                0int
            } else {
                1int
            }), c.next_index[i],
{
    raft_laws::valid_is_bounded(c);
    let most = (u64::MAX - 1) as u64;
    let leader = c.nodes[l];
    let next = c.next_index[i];
    let end = leader.log.last_index();
    assert(c.member_ok(l));
    assert(c.member_ok(i));
    if next > end + 1 {
        raft_laws::tracking_keeps(c, i, (end + 1) as u64, 0);
        catching_up_commits_no_further(c.with_next(i, (end + 1) as u64), l, i, sent);
    } else if next <= leader.log.base_index {
        if let Some(data) = leader.snapshot {
            if !sent {
                raft_node_laws::installing_keeps(
                    c.nodes[i],
                    leader.current_term,
                    data,
                    leader.commit_index,
                );
                installing_commits_no_further(c.nodes[i], leader, data);
                let (node, result) = c.nodes[i].install_snapshot(
                    leader.current_term,
                    data,
                    leader.commit_index,
                );
                raft_laws::replacing_keeps(c, i, node, u64::MAX, most);
                let d = c.with_node(i, node);
                if result == Ok::<bool, DbErrorV>(true) {
                    raft_laws::tracking_keeps(d, i, 1, data.last_included_index);
                    let e = d.with_progress(i, data.last_included_index);
                    catching_up_commits_no_further(e, l, i, true);
                }
            }
        }
    } else {
        let prev = (next - 1) as u64;
        let prev_term = if prev == 0 {
            Some(0)
        } else {
            leader.log.term_at(prev)
        };
        raft_laws::sent_entries_follow(c, l, next);
        if let Some(t) = prev_term {
            let entries = leader.log.entries_from(next);
            raft_node_laws::appending_keeps(
                c.nodes[i],
                leader.current_term,
                prev,
                t,
                entries,
                leader.commit_index,
            );
            appending_commits_no_further(c.nodes[i], leader, prev, t, entries);
            let (node, result) = c.nodes[i].append_entries(
                leader.current_term,
                prev,
                t,
                entries,
                leader.commit_index,
            );
            raft_laws::replacing_keeps(c, i, node, u64::MAX, most);
            let d = c.with_node(i, node);
            if result == Ok::<bool, DbErrorV>(false) && next > 1 {
                raft_laws::tracking_keeps(d, i, prev, 0);
                catching_up_commits_no_further(d.with_next(i, prev), l, i, sent);
            }
        } else if next > 1 {
            raft_laws::tracking_keeps(c, i, prev, 0);
            catching_up_commits_no_further(c.with_next(i, prev), l, i, sent);
        }
    }
}

/// Replicating takes no member's commit index further than the leader's, and
/// changes nothing that is known of members who are not connected.
proof fn replicating_commits_no_further(c: ClusterV, l: int, k: int, end: int, acks: int)
    requires
        c.wf(),
        0 <= l < c.nodes.len(),
        0 <= k <= end <= c.nodes.len(),
    ensures
        ({
            let after = c.replicate_from(l, k, end, acks).0;
            &&& forall|j: int|
                0 <= j < c.nodes.len() ==> told_of(c.nodes[j], #[trigger] after.nodes[j], c.nodes[l])
            &&& forall|j: int|
                0 <= j < c.nodes.len() && (j == l || !c.connected[j])
                    ==> #[trigger] after.match_index[j] == c.match_index[j]
        }),
    decreases end - k,
{
    if k < end {
        if k == l {
            replicating_commits_no_further(c, l, k + 1, end, acks);
            assert(c.replicate_from(l, k, end, acks) == c.replicate_from(l, k + 1, end, acks));
        } else {
            reveal(ClusterV::replicate);
            raft_laws::valid_is_bounded(c);
            raft_laws::replicating_keeps(c, l, k, u64::MAX, (u64::MAX - 1) as u64);
            catching_up_commits_no_further(c, l, k, false);
            let (d, result) = c.replicate(l, k);
            assert forall|j: int| 0 <= j < c.nodes.len() implies told_of(
                c.nodes[j],
                #[trigger] d.nodes[j],
                c.nodes[l],
            ) by {
                if j != k {
                    assert(d.nodes[j] == c.nodes[j]);
                }
            }
            assert forall|j: int| 0 <= j < c.nodes.len() && (j == l || !c.connected[j]) implies
                #[trigger] d.match_index[j] == c.match_index[j] by {
            }
            if result is Err {
                assert(c.replicate_from(l, k, end, acks).0 == d);
            }
            if let Ok(taken) = result {
                let more = if taken {
                    acks + 1
                } else {
                    acks
                };
                replicating_commits_no_further(d, l, k + 1, end, more);
                let after = d.replicate_from(l, k + 1, end, more).0;
                assert(c.replicate_from(l, k, end, acks).0 == after);
                assert forall|j: int| 0 <= j < c.nodes.len() implies told_of(
                    c.nodes[j],
                    #[trigger] after.nodes[j],
                    c.nodes[l],
                ) by {
                    assert(told_of(d.nodes[j], after.nodes[j], d.nodes[l]));
                    if j != k {
                        assert(d.nodes[j] == c.nodes[j]);
                    }
                }
                assert forall|j: int|
                    0 <= j < c.nodes.len() && (j == l || !c.connected[j]) implies
                    #[trigger] after.match_index[j] == c.match_index[j] by {
                    assert(after.match_index[j] == d.match_index[j]);
                    if j != k {
                        assert(d.match_index[j] == c.match_index[j]);
                    }
                }
            }
        }
    }
}

/// How many of the first `k` members are connected or the one at `l`.
pub open spec fn side_of(c: ClusterV, l: int, k: int) -> int
    decreases k,
{
    if k <= 0 {
        0
    } else if c.connected[k - 1] || k - 1 == l {
        side_of(c, l, k - 1) + 1
    } else {
        side_of(c, l, k - 1)
    }
}

proof fn others_do_not_reach(c: ClusterV, l: int, least: Index, k: int)
    requires
        0 <= k <= c.match_index.len(),
        forall|j: int|
            0 <= j < k && j != l && !c.connected[j] ==> #[trigger] c.match_index[j] < least,
    ensures
        raft_model::count_reaching(c.match_index.take(k), least) <= side_of(c, l, k),
    decreases k,
{
    if k > 0 {
        others_do_not_reach(c, l, least, k - 1);
        assert(c.match_index.take(k).drop_last() =~= c.match_index.take(k - 1));
        assert(c.match_index.take(k).last() == c.match_index[k - 1]);
    }
}

proof fn sides_are_the_same(c: ClusterV, d: ClusterV, l: int, k: int)
    requires
        c.connected == d.connected,
    ensures
        side_of(c, l, k) == side_of(d, l, k),
    decreases k,
{
    if k > 0 {
        sides_are_the_same(c, d, l, k - 1);
    }
}

/// No number reaches a least one.
proof fn none_reach(numbers: Seq<Index>, least: Index)
    requires
        forall|j: int| 0 <= j < numbers.len() ==> #[trigger] numbers[j] < least,
    ensures
        raft_model::count_reaching(numbers, least) == 0,
    decreases numbers.len(),
{
    if numbers.len() > 0 {
        let rest = numbers.drop_last();
        assert forall|j: int| 0 <= j < rest.len() implies #[trigger] rest[j] < least by {
            assert(numbers[j] < least);
        }
        none_reach(rest, least);
        assert(numbers[numbers.len() - 1] < least);
    }
}

/// A leader on the side of a minority commits nothing that it is asked: a
/// proposal is taken into its log, but nobody commits it.
pub proof fn minorities_commit_no_proposal(c: ClusterV, command: CommandV)
    requires
        c.wf(),
        c.log_room(1),
        side_of(c, c.leader_at(), c.nodes.len() as int) < c.quorum(),
        forall|k: int|
            0 <= k < c.nodes.len() ==> #[trigger] c.match_index[k]
                <= c.nodes[c.leader_at()].log.last_index(),
        forall|k: int|
            0 <= k < c.nodes.len() ==> (#[trigger] c.nodes[k]).commit_index
                <= c.nodes[c.leader_at()].log.last_index(),
    ensures
        ({
            let (after, result) = c.propose(command);
            let last = c.nodes[c.leader_at()].log.last_index();
            &&& forall|k: int|
                0 <= k < c.nodes.len() ==> (#[trigger] after.nodes[k]).commit_index <= last
            &&& result matches Ok(outcome) ==> outcome.committed_nodes == 0
        }),
{
    reveal(ClusterV::propose);
    raft_laws::leader_has_place(c);
    let l = c.leader_at();
    let leader = c.nodes[l];
    let old_last = leader.log.last_index();
    let end = c.nodes.len() as int;
    assert(c.member_ok(l));
    if leader.role == Role::Leader {
        raft_laws::valid_is_bounded(c);
        raft_laws::writing_keeps(leader, command, leader.current_term);
        let (node, result) = leader.append_local(command, leader.current_term);
        let most = (u64::MAX - 1) as u64;
        raft_laws::replacing_keeps(c, l, node, u64::MAX, most);
        let a = c.with_node(l, node);
        if let Ok(entry) = result {
            raft_laws::tracking_keeps(a, l, 1, entry.index);
            let written = a.with_progress(l, entry.index);
            replicating_commits_no_further(written, l, 0, end, 0);
            raft_laws::replicating_from_keeps(written, l, 0, end, 0, u64::MAX, most);
            let (sent, r) = written.replicate_from(l, 0, end, 0);
            assert forall|k: int| 0 <= k < end implies (#[trigger] sent.nodes[k]).commit_index
                <= old_last by {
                assert(told_of(written.nodes[k], sent.nodes[k], written.nodes[l]));
                if k != l {
                    assert(written.nodes[k] == c.nodes[k]);
                }
                assert(c.nodes[k].commit_index <= old_last);
            }
            if r is Ok {
                assert forall|j: int| 0 <= j < end && j != l && !sent.connected[j] implies
                    #[trigger] sent.match_index[j] < entry.index by {
                    assert(sent.match_index[j] == written.match_index[j]);
                    assert(c.match_index[j] <= old_last);
                }
                others_do_not_reach(sent, l, entry.index, end);
                sides_are_the_same(c, sent, l, end);
                assert(sent.match_index.take(end) =~= sent.match_index);
                let point = sent.commit_point(l, entry.index);
                assert(point == sent.commit_point(l, old_last));
                raft_laws::commit_point_is_greatest(sent, l, old_last);
                raft_laws::advancing_commit_keeps(sent, l, u64::MAX, most);
                let told = sent.advance_commit(l);
                assert(told.nodes[l].commit_index <= old_last);
                replicating_commits_no_further(told, l, 0, end, 0);
                let after = told.replicate_from(l, 0, end, 0).0;
                raft_laws::replicating_from_keeps(told, l, 0, end, 0, u64::MAX, most);
                assert forall|k: int| 0 <= k < end implies (#[trigger] after.nodes[k]).commit_index
                    <= old_last by {
                    assert(told_of(told.nodes[k], after.nodes[k], told.nodes[l]));
                    if k != l {
                        assert(told.nodes[k] == sent.nodes[k]);
                    }
                    assert(sent.nodes[k].commit_index <= old_last);
                }
                let reached = raft_model::commits(after.nodes);
                assert forall|j: int| 0 <= j < reached.len() implies #[trigger] reached[j]
                    < entry.index by {
                    assert(after.nodes[j].commit_index <= old_last);
                }
                none_reach(reached, entry.index);
            }
        }
    }
}

/// Whoever is elected has the votes of a majority, its own among them.
pub proof fn elected_leaders_have_a_majority(c: ClusterV, i: int)
    requires
        c.wf(),
        0 <= i < c.nodes.len(),
        c.term_room(1),
    ensures
        c.elect(i).1 matches Ok(outcome) ==> {
            &&& outcome.elected ==> outcome.votes_received >= c.quorum() && outcome.leader_id
                == c.nodes[i].id && c.elect(i).0.leader_id == c.nodes[i].id
            &&& !outcome.elected ==> c.elect(i).0.leader_id == c.leader_id
        },
{
    let most = (u64::MAX - 1) as u64;
    raft_laws::valid_is_bounded(c);
    raft_laws::electing_keeps(c, i, most, most);
}

/// Making a snapshot changes no state: what is committed and what the state
/// holds stay, the snapshot holds that state, and every entry that is not
/// committed stays in the log.
pub proof fn snapshots_change_no_state(node: NodeV, index: Index)
    requires
        node.wf(),
        node.commit_index <= node.log.last_index(),
        node.commit_index < index,
    ensures
        ({
            let (after, result) = node.create_snapshot();
            &&& after.state == node.state
            &&& after.commit_index == node.commit_index
            &&& after.current_term == node.current_term
            &&& after.voted_for == node.voted_for
            &&& after.log.last_index() == node.log.last_index()
            &&& after.log.get(index) == node.log.get(index)
            &&& result matches Ok(Some(data)) ==> data.state == node.state
                && data.last_included_index == node.commit_index && after.snapshot == Some(data)
                && after.log.base_index == node.commit_index
        }),
{
    reveal(NodeV::create_snapshot);
    assert(node.log.last_index() == node.log.base_index + node.log.entries.len());
    if let Some(term) = node.log.term_at(node.commit_index) {
        memlog::compaction_keeps_the_suffix(node.log, node.commit_index, term, index);
    }
}

/// A member that takes a leader's snapshot, having committed no more than it
/// holds, has the snapshot's state, with the entries behind it that the leader
/// has committed applied.
pub proof fn installed_snapshots_are_the_state(
    node: NodeV,
    leader_term: Term,
    data: SnapshotDataV,
    leader_commit: Index,
)
    requires
        node.wf(),
        node.current_term <= leader_term,
        !node.has_snapshot(data),
        node.commit_index <= data.last_included_index,
        node.install_snapshot(leader_term, data, leader_commit).1 == Ok::<bool, DbErrorV>(true),
    ensures
        ({
            let after = node.install_snapshot(leader_term, data, leader_commit).0;
            &&& after.log.base_index == data.last_included_index
            &&& after.snapshot == Some(data)
            &&& after.commit_index >= data.last_included_index
            &&& after.state == state_machine::replayed(
                data.state,
                after.log.entries.take(after.commit_index - data.last_included_index),
            )
        }),
{
    reveal(NodeV::install_snapshot);
    raft_node_laws::becoming_follower_keeps(node, leader_term);
    let heeded = node.heed(leader_term);
    let stored = heeded.store_snapshot(data).0;
    let installed = stored.with_snapshot(data);
    let after = node.install_snapshot(leader_term, data, leader_commit).0;
    let none = after.log.entries.take(0);
    assert(none =~= Seq::empty());
    let n = after.commit_index - data.last_included_index;
    assert(installed.log.entries.subrange(0, n) =~= after.log.entries.take(n));
}

} // verus!
