//! When votes are granted, and who is elected.
use vstd::prelude::*;

use crate::memlog::MemLogV;
use crate::raft_laws;
use crate::raft_model;
use crate::raft_model::ClusterV;
use crate::raft_node;
use crate::raft_node::{NodeV, RequestVote, Role, VoteResponse};
use crate::types::{Index, NodeId, Term};

verus! {

/// The term and index of the last entry of a log, or of what was compacted
/// where there is none.
pub open spec fn end_of(log: MemLogV) -> (Term, Index) {
    if log.entries.len() > 0 {
        let last = log.entries[log.entries.len() - 1];
        (last.term, last.index)
    } else {
        (log.base_term, log.base_index)
    }
}

/// One log ends no earlier than another: in a later term, whatever their
/// lengths, or in the same term and at no lower index.
pub open spec fn no_earlier(a: (Term, Index), b: (Term, Index)) -> bool {
    a.0 > b.0 || (a.0 == b.0 && a.1 >= b.1)
}

/// The vote of a member is free for a candidate in a term: the term is later
/// than the member's own, or the member has not voted in it for somebody else.
pub open spec fn vote_is_free(node: NodeV, term: Term, candidate: NodeId) -> bool {
    ||| node.current_term < term
    ||| node.current_term == term && (node.voted_for is None || node.voted_for == Some(candidate)
        || node.id == candidate)
}

/// A vote is granted exactly where it is free for the candidate in its term and
/// the candidate's log ends no earlier than the voter's. The answer carries the
/// later of the two terms.
pub proof fn votes_are_granted(node: NodeV, request: RequestVote)
    requires
        node.log.wf(),
    ensures
        ({
            let response = node.request_vote(request).1;
            &&& response.vote_granted <==> vote_is_free(node, request.term, request.candidate_id)
                && no_earlier((request.last_log_term, request.last_log_index), end_of(node.log))
            &&& response.term == if request.term > node.current_term {
                request.term
            } else {
                node.current_term
            }
        }),
{
    reveal(NodeV::request_vote);
}

/// What a vote changes: a granted one is the member's vote in that term and
/// starts its clock anew; a later term is taken over in any case, as a follower
/// and without a vote; an earlier one changes nothing. Nothing else changes, and
/// term and vote go to disk together.
pub proof fn votes_change_term_and_vote_only(node: NodeV, request: RequestVote)
    requires
        node.log.wf(),
    ensures
        ({
            let (after, response) = node.request_vote(request);
            let later = request.term > node.current_term;
            &&& request.term < node.current_term ==> after == node
            &&& response.vote_granted ==> after.voted_for == Some(request.candidate_id)
                && after.election_elapsed == 0 && after.election_backoff_rounds == 0
            &&& !response.vote_granted && later ==> after.voted_for is None
            &&& !response.vote_granted && !later ==> after == node
            &&& later ==> after.current_term == request.term && after.role == Role::Follower
                && after.election_elapsed == 0 && after.heartbeat_elapsed == 0
            &&& !later ==> after.current_term == node.current_term && after.role == node.role
                && after.heartbeat_elapsed == node.heartbeat_elapsed
            &&& after.id == node.id && after.log == node.log && after.state == node.state
                && after.snapshot == node.snapshot && after.commit_index == node.commit_index
                && after.last_applied == node.last_applied
            &&& node.wal is None ==> after.wal is None
            &&& (response.vote_granted || later) && node.wal is Some ==> after.wal == Some(
                node.wal->0.persist_raft_meta(after.current_term, after.voted_for),
            )
        }),
{
    reveal(NodeV::request_vote);
}

/// The member at `k` can hear the candidate at `i` and would grant it a vote in
/// a term, for a log with the given end.
pub open spec fn would_vote(
    c: ClusterV,
    i: int,
    k: int,
    term: Term,
    end: (Term, Index),
) -> bool {
    &&& k != i
    &&& c.connected[i] && c.connected[k]
    &&& vote_is_free(c.nodes[k], term, c.nodes[i].id)
    &&& no_earlier(end, end_of(c.nodes[k].log))
}

/// How many members from place `k` on would vote for the candidate at `i`.
pub open spec fn votes_from(c: ClusterV, i: int, term: Term, end: (Term, Index), k: int) -> nat
    decreases c.nodes.len() - k,
{
    if k >= c.nodes.len() {
        0
    } else if would_vote(c, i, k, term, end) {
        votes_from(c, i, term, end, k + 1) + 1
    } else {
        votes_from(c, i, term, end, k + 1)
    }
}

/// Nobody whom the member at `i` can hear is in a later term than the next one.
pub open spec fn nobody_is_ahead(c: ClusterV, i: int) -> bool {
    forall|k: int|
        0 <= k < c.nodes.len() && k != i && c.connected[i] && c.connected[k] ==> (
        #[trigger] c.nodes[k]).current_term <= c.nodes[i].current_term + 1
}

/// Votes from a place on depend only on the members there.
proof fn later_votes_stay(c: ClusterV, d: ClusterV, i: int, term: Term, end: (Term, Index), k: int)
    requires
        d.nodes.len() == c.nodes.len(),
        d.connected == c.connected,
        d.nodes[i].id == c.nodes[i].id,
        forall|j: int| k <= j < c.nodes.len() && j != i ==> #[trigger] d.nodes[j] == c.nodes[j],
    ensures
        votes_from(d, i, term, end, k) == votes_from(c, i, term, end, k),
    decreases c.nodes.len() - k,
{
    if k < c.nodes.len() {
        later_votes_stay(c, d, i, term, end, k + 1);
        if k != i {
            assert(d.nodes[k] == c.nodes[k]);
        }
    }
}

proof fn votes_are_counted(c: ClusterV, i: int, request: RequestVote, k: int, votes: int)
    requires
        c.wf(),
        0 <= i < c.nodes.len(),
        0 <= k <= c.nodes.len(),
        request.candidate_id == c.nodes[i].id,
        forall|j: int|
            k <= j < c.nodes.len() && j != i && c.connected[i] && c.connected[j] ==> (
            #[trigger] c.nodes[j]).current_term <= request.term,
    ensures
        ({
            let end = (request.last_log_term, request.last_log_index);
            let (after, n, stopped) = c.collect_votes(
                i,
                request,
                k,
                c.nodes.len() as int,
                votes,
            );
            &&& !stopped && n == votes + votes_from(c, i, request.term, end, k)
            &&& after.nodes[i] == c.nodes[i]
            &&& after.current_term == c.current_term
            &&& after.nodes.len() == c.nodes.len()
        }),
    decreases c.nodes.len() - k,
{
    let end = (request.last_log_term, request.last_log_index);
    if k < c.nodes.len() {
        if k == i || !(c.connected[i] && c.connected[k]) {
            votes_are_counted(c, i, request, k + 1, votes);
        } else {
            assert(c.member_ok(k));
            votes_are_granted(c.nodes[k], request);
            let (voter, response) = c.nodes[k].request_vote(request);
            let d = c.with_node(k, voter);
            let most = u64::MAX;
            raft_laws::valid_is_bounded(c);
            crate::raft_node_laws::voting_keeps(c.nodes[k], request);
            raft_laws::replacing_keeps(c, k, voter, most, (u64::MAX - 1) as u64);
            let more = if response.vote_granted {
                votes + 1
            } else {
                votes
            };
            votes_are_counted(d, i, request, k + 1, more);
            later_votes_stay(c, d, i, request.term, end, k + 1);
        }
    }
}

/// A member that stands for election in the next term gets its own vote and
/// those of everybody whom it can hear, whose vote is free and whose log ends no
/// later than its own; and it is elected exactly where these are a majority of
/// all members, whoever led before. A member that is not elected leaves the
/// leader as it is and waits for longer.
pub proof fn majorities_elect(c: ClusterV, i: int)
    requires
        c.wf(),
        c.term_room(1),
        0 <= i < c.nodes.len(),
        nobody_is_ahead(c, i),
    ensures
        ({
            let term = (c.nodes[i].current_term + 1) as u64;
            let votes = 1 + votes_from(c, i, term, end_of(c.nodes[i].log), 0);
            let (after, result) = c.elect(i);
            if 2 * votes > c.nodes.len() {
                &&& after.leader_id == c.nodes[i].id
                &&& after.nodes[i].role == Role::Leader
                &&& after.nodes[i].current_term == term
                &&& result matches Ok(outcome) ==> outcome.elected && outcome.votes_received
                    == votes && outcome.term == term && outcome.leader_id == c.nodes[i].id
            } else {
                &&& after.leader_id == c.leader_id
                &&& after.nodes[i].role == Role::Candidate
                &&& after.nodes[i].current_term == term
                &&& result matches Ok(outcome) && !outcome.elected && outcome.votes_received
                    == votes && outcome.term == term && outcome.leader_id == c.leader_id
            }
        }),
{
    reveal(ClusterV::elect);
    reveal(ClusterV::stood);
    let most = (u64::MAX - 1) as u64;
    let top = u64::MAX;
    assert forall|k: int| 0 <= k < c.nodes.len() implies (#[trigger] c.nodes[k]).current_term
        <= most by {
        assert(c.nodes[k].current_term + 1 <= u64::MAX);
    }
    raft_laws::valid_is_bounded(c);
    raft_laws::standing_keeps(c, i, most, most);
    let stood = c.stood(i);
    let request = stood.ballot(i);
    let n = c.nodes.len() as int;
    let end = (request.last_log_term, request.last_log_index);
    assert(c.member_ok(i));
    assert(end == end_of(c.nodes[i].log));
    assert forall|j: int|
        0 <= j < stood.nodes.len() && j != i && stood.connected[i] && stood.connected[j] implies (
    #[trigger] stood.nodes[j]).current_term <= request.term by {
        assert(stood.nodes[j] == c.nodes[j]);
    }
    votes_are_counted(stood, i, request, 0, 1);
    later_votes_stay(c, stood, i, request.term, end, 0);
    raft_laws::collecting_keeps(stood, i, request, 0, n, 1, top, most);
    let (asked, votes, stopped) = stood.collect_votes(i, request, 0, n, 1);
    if votes >= c.quorum() {
        raft_laws::crowning_keeps(asked, i, request.term, top, most);
        let crowned = asked.crown(i, request.term);
        assert(crowned.nodes[i].current_term == request.term) by {
            reveal(ClusterV::crown);
        }
        raft_laws::heartbeats_keep(crowned, top, most);
    }
}

/// A member that is not elected stays a candidate, waits from now on, and for
/// twice as long as before, up to the fourth time; and the cluster is in its term
/// where that is the latest.
#[verifier::rlimit(60)]
pub proof fn losers_wait_for_longer(c: ClusterV, i: int)
    requires
        c.wf(),
        c.term_room(1),
        0 <= i < c.nodes.len(),
        nobody_is_ahead(c, i),
        2 * (1 + votes_from(
            c,
            i,
            (c.nodes[i].current_term + 1) as u64,
            end_of(c.nodes[i].log),
            0,
        )) <= c.nodes.len(),
    ensures
        ({
            let term = (c.nodes[i].current_term + 1) as u64;
            let after = c.elect(i).0;
            let loser = after.nodes[i];
            &&& after.current_term == if term > c.current_term {
                term
            } else {
                c.current_term
            }
            &&& loser.role == Role::Candidate && loser.voted_for == Some(c.nodes[i].id)
            &&& loser.election_elapsed == 0
            &&& loser.election_backoff_rounds == if c.nodes[i].election_backoff_rounds >= 4 {
                4
            } else {
                c.nodes[i].election_backoff_rounds + 1
            }
            &&& loser.election_timeout_ticks == raft_node::election_timeout(
                c.nodes[i].id,
                term,
                loser.election_backoff_rounds,
            )
        }),
{
    reveal(ClusterV::elect);
    reveal(ClusterV::stood);
    let most = (u64::MAX - 1) as u64;
    assert forall|k: int| 0 <= k < c.nodes.len() implies (#[trigger] c.nodes[k]).current_term
        <= most by {
        assert(c.nodes[k].current_term + 1 <= u64::MAX);
    }
    raft_laws::valid_is_bounded(c);
    raft_laws::standing_keeps(c, i, most, most);
    let stood = c.stood(i);
    let request = stood.ballot(i);
    let end = (request.last_log_term, request.last_log_index);
    assert(c.member_ok(i));
    assert(end == end_of(c.nodes[i].log));
    assert forall|j: int|
        0 <= j < stood.nodes.len() && j != i && stood.connected[i] && stood.connected[j] implies (
    #[trigger] stood.nodes[j]).current_term <= request.term by {
        assert(stood.nodes[j] == c.nodes[j]);
    }
    votes_are_counted(stood, i, request, 0, 1);
    later_votes_stay(c, stood, i, request.term, end, 0);
}

proof fn asking_stops(c: ClusterV, i: int, request: RequestVote, k: int, votes: int, ahead: int)
    requires
        c.wf(),
        0 <= i < c.nodes.len(),
        0 <= k <= ahead < c.nodes.len(),
        ahead != i,
        c.connected[i] && c.connected[ahead],
        request.candidate_id == c.nodes[i].id,
        c.nodes[ahead].current_term > request.term,
        forall|j: int|
            k <= j < ahead && j != i && c.connected[j] ==> (#[trigger] c.nodes[j]).current_term
                <= request.term,
    ensures
        ({
            let (after, n, stopped) = c.collect_votes(
                i,
                request,
                k,
                c.nodes.len() as int,
                votes,
            );
            &&& stopped
            &&& after.current_term == c.nodes[ahead].current_term
            &&& after.nodes[i] == c.nodes[i].become_follower(c.nodes[ahead].current_term)
            &&& after.nodes[ahead] == c.nodes[ahead]
            &&& after.leader_id == c.leader_id
            &&& votes <= n <= votes + (ahead - k)
        }),
    decreases c.nodes.len() - k,
{
    if k == i || !c.connected[k] {
        asking_stops(c, i, request, k + 1, votes, ahead);
    } else {
        assert(c.member_ok(k));
        assert(c.nodes[k].id != c.nodes[i].id) by {
            if k < i {
                assert(c.nodes[k].id < c.nodes[i].id);
            } else {
                assert(c.nodes[i].id < c.nodes[k].id);
            }
        }
        votes_are_granted(c.nodes[k], request);
        votes_change_term_and_vote_only(c.nodes[k], request);
        let (voter, response) = c.nodes[k].request_vote(request);
        let d = c.with_node(k, voter);
        if k == ahead {
            assert(d.nodes =~= c.nodes);
        } else {
            raft_laws::valid_is_bounded(c);
            crate::raft_node_laws::voting_keeps(c.nodes[k], request);
            raft_laws::replacing_keeps(c, k, voter, u64::MAX, (u64::MAX - 1) as u64);
            let more = if response.vote_granted {
                votes + 1
            } else {
                votes
            };
            asking_stops(d, i, request, k + 1, more, ahead);
        }
    }
}

/// The first member that the candidate hears of in a later term than its own
/// stops the election: nobody is elected, the leader stays, and the candidate
/// follows in that later term, without a vote.
pub proof fn later_terms_stop_elections(c: ClusterV, i: int, ahead: int)
    requires
        c.wf(),
        c.term_room(1),
        0 <= i < c.nodes.len(),
        0 <= ahead < c.nodes.len(),
        ahead != i,
        c.connected[i] && c.connected[ahead],
        c.nodes[ahead].current_term > c.nodes[i].current_term + 1,
        forall|j: int|
            0 <= j < ahead && j != i && c.connected[j] ==> (#[trigger] c.nodes[j]).current_term
                <= c.nodes[i].current_term + 1,
    ensures
        ({
            let (after, result) = c.elect(i);
            let term = c.nodes[ahead].current_term;
            &&& result matches Ok(outcome) && !outcome.elected && outcome.term == term
                && outcome.leader_id == c.leader_id
            &&& after.leader_id == c.leader_id
            &&& after.current_term == term
            &&& after.nodes[i].role == Role::Follower
            &&& after.nodes[i].current_term == term
            &&& after.nodes[i].voted_for is None
            &&& after.nodes[ahead] == c.nodes[ahead]
        }),
{
    reveal(ClusterV::elect);
    reveal(ClusterV::stood);
    let most = (u64::MAX - 1) as u64;
    assert forall|k: int| 0 <= k < c.nodes.len() implies (#[trigger] c.nodes[k]).current_term
        <= most by {
        assert(c.nodes[k].current_term + 1 <= u64::MAX);
    }
    raft_laws::valid_is_bounded(c);
    raft_laws::standing_keeps(c, i, most, most);
    let stood = c.stood(i);
    let request = stood.ballot(i);
    assert(c.member_ok(i));
    assert forall|j: int| 0 <= j < ahead && j != i && stood.connected[j] implies (
    #[trigger] stood.nodes[j]).current_term <= request.term by {
        assert(stood.nodes[j] == c.nodes[j]);
    }
    assert(stood.nodes[ahead] == c.nodes[ahead]);
    asking_stops(stood, i, request, 0, 1, ahead);
}

/// Who takes office leads in its term and is connected; everybody else follows,
/// in that term or a later one; and of the others' logs nothing is known yet but
/// that they may hold all of the leader's.
pub proof fn offices_are_taken(c: ClusterV, i: int, term: Term, k: int)
    requires
        c.wf(),
        0 <= i < c.nodes.len(),
        0 <= k < c.nodes.len(),
        k != i,
        c.nodes[i].log.last_index() < u64::MAX,
    ensures
        ({
            let after = c.crown(i, term);
            &&& after.leader_id == c.nodes[i].id && after.current_term == term
            &&& after.connected[i] && after.connected[k] == c.connected[k]
            &&& after.nodes[i].role == Role::Leader && after.nodes[k].role == Role::Follower
            &&& after.nodes[i].current_term == c.nodes[i].current_term
            &&& after.nodes[k].current_term == if term > c.nodes[k].current_term {
                term
            } else {
                c.nodes[k].current_term
            }
            &&& after.nodes[k].log == c.nodes[k].log && after.nodes[i].log == c.nodes[i].log
            &&& after.match_index[i] == c.nodes[i].log.last_index() && after.match_index[k] == 0
            &&& after.next_index[k] == c.nodes[i].log.last_index() + 1
        }),
{
    reveal(ClusterV::crown);
}

} // verus!
