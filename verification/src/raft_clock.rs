//! What the passing of time does: heartbeats, and elections where nobody is
//! heard.
use vstd::prelude::*;

use crate::raft_history;
use crate::raft_laws;
use crate::raft_model;
use crate::raft_model::ClusterV;
use crate::raft_node::{NodeV, RequestVote, Role};
use crate::raft_progress;
use crate::raft_progress::{follows, without_files};
use crate::raft_soundness;
use crate::raft_soundness::{sound, History};
use crate::raft_steps;
use crate::raft_votes;
use crate::raft_votes::{end_of, nobody_is_ahead, votes_from};
use crate::types::DbErrorV;

verus! {

proof fn asking_opens_no_files(c: ClusterV, i: int, request: RequestVote, k: int, votes: int)
    requires
        without_files(c),
        0 <= i < c.nodes.len(),
        0 <= k <= c.nodes.len(),
    ensures
        without_files(c.collect_votes(i, request, k, c.nodes.len() as int, votes).0),
    decreases c.nodes.len() - k,
{
    if k < c.nodes.len() {
        if k == i || !(c.connected[i] && c.connected[k]) {
            asking_opens_no_files(c, i, request, k + 1, votes);
        } else {
            let (voter, response) = c.nodes[k].request_vote(request);
            assert(c.nodes[k].wal is None);
            assert(voter.wal is None) by {
                reveal(NodeV::request_vote);
            }
            let asked = c.with_node(k, voter);
            assert forall|j: int| 0 <= j < asked.nodes.len() implies (
            #[trigger] asked.nodes[j]).wal is None by {
                assert(c.nodes[j].wal is None);
            }
            if response.term > request.term {
                let stopped = asked.with_node(i, asked.nodes[i].become_follower(response.term));
                assert(asked.nodes[i].wal is None);
                assert forall|j: int| 0 <= j < stopped.nodes.len() implies (
                #[trigger] stopped.nodes[j]).wal is None by {
                    assert(asked.nodes[j].wal is None);
                }
            } else {
                let more = if response.vote_granted {
                    votes + 1
                } else {
                    votes
                };
                asking_opens_no_files(asked, i, request, k + 1, more);
            }
        }
    }
}

#[verifier::rlimit(60)]
proof fn the_elected_are_heard(asked: ClusterV, h: History, l: int, i: int)
    requires
        h.explains(asked, l),
        without_files(asked),
        0 <= i < asked.nodes.len(),
        h.reign < asked.nodes[i].current_term,
        raft_history::agree(h.logs[i], h.logs[l], h.anchor),
    ensures
        asked.crown(i, asked.nodes[i].current_term).heartbeat_round().1 is Ok,
{
    raft_soundness::explained_place(asked, h, l);
    let g = raft_steps::crowning_is_explained(asked, h, l, i);
    let crowned = asked.crown(i, asked.nodes[i].current_term);
    raft_soundness::explained_place(crowned, g, i);
    assert(sound(crowned)) by {
        assert(g.explains(crowned, i));
    }
    assert(without_files(crowned) && crowned.available(i)) by {
        reveal(ClusterV::crown);
        assert(crowned.nodes.len() == asked.nodes.len());
        assert forall|j: int| 0 <= j < crowned.nodes.len() implies (
        #[trigger] crowned.nodes[j]).wal is None by {
            assert(asked.nodes[j].wal is None);
        }
    }
    raft_progress::heartbeats_bring_followers_up(crowned, i);
}

proof fn elections_do_not_fail(c: ClusterV, i: int)
    requires
        sound(c),
        without_files(c),
        c.term_room(1),
        0 <= i < c.nodes.len(),
    ensures
        c.elect(i).1 is Ok,
{
    let l = c.leader_at();
    let h = choose|h: History| #[trigger] h.explains(c, l);
    raft_soundness::explained_place(c, h, l);
    raft_steps::standing_is_explained(c, h, l, i);
    let stood = c.stood(i);
    let request = stood.ballot(i);
    let n = c.nodes.len() as int;
    assert(without_files(stood)) by {
        reveal(ClusterV::stood);
        assert forall|j: int| 0 <= j < stood.nodes.len() implies (
        #[trigger] stood.nodes[j]).wal is None by {
            assert(c.nodes[j].wal is None);
        }
    }
    let (asked, votes, stopped) = stood.collect_votes(i, request, 0, n, 1);
    if !stopped && votes >= c.quorum() {
        asking_opens_no_files(stood, i, request, 0, 1);
        the_elected_are_heard(asked, h, l, i);
    }
    reveal(ClusterV::elect);
}

/// Without files no election fails: with a majority of the votes the member is
/// elected, and without one it is not.
pub proof fn elections_decide(c: ClusterV, i: int)
    requires
        sound(c),
        without_files(c),
        c.term_room(1),
        0 <= i < c.nodes.len(),
    ensures
        c.elect(i).1 is Ok,
        nobody_is_ahead(c, i) ==> (c.elect(i).1->Ok_0.elected <==> 2 * (1 + votes_from(
            c,
            i,
            (c.nodes[i].current_term + 1) as u64,
            end_of(c.nodes[i].log),
            0,
        )) > c.nodes.len()),
{
    elections_do_not_fail(c, i);
    if nobody_is_ahead(c, i) {
        let l = c.leader_at();
        let h = choose|h: History| #[trigger] h.explains(c, l);
        raft_soundness::explained_place(c, h, l);
        raft_votes::majorities_elect(c, i);
    }
}

/// The clock of everybody who does not lead goes up by one, and nothing else.
pub open spec fn only_waits(before: NodeV, after: NodeV) -> bool {
    after == if before.role == Role::Leader {
        before
    } else {
        NodeV { election_elapsed: (before.election_elapsed + 1) as u64, ..before }
    }
}

/// The member has waited for a leader as long as its timeout, at the next tick.
pub open spec fn has_waited(node: NodeV) -> bool {
    node.role != Role::Leader && node.election_elapsed + 1 >= node.election_timeout_ticks
}

/// The leader is connected and in office, and its next heartbeat is due at the
/// next tick.
pub open spec fn heartbeat_is_due(c: ClusterV) -> bool {
    let leader = c.nodes[c.leader_at()];
    &&& c.connected[c.leader_at()]
    &&& leader.role == Role::Leader
    &&& leader.heartbeat_elapsed + 1 >= c.heartbeat_interval_ticks
}

/// The cluster right after the clock and the leader's heartbeat clock have gone
/// on by a tick.
pub open spec fn clock_goes_on(before: ClusterV, after: ClusterV) -> bool {
    let l = before.leader_at();
    let leader = before.nodes[l];
    &&& after.clock_ticks == before.clock_ticks + 1
    &&& after == (ClusterV { clock_ticks: after.clock_ticks, nodes: after.nodes, ..before })
    &&& after.nodes.len() == before.nodes.len()
    &&& forall|k: int|
        0 <= k < before.nodes.len() && k != l ==> #[trigger] after.nodes[k] == before.nodes[k]
    &&& after.nodes[l] == if heartbeat_is_due(before) {
        NodeV { heartbeat_elapsed: 0, ..leader }
    } else if before.connected[l] && leader.role == Role::Leader {
        NodeV { heartbeat_elapsed: (leader.heartbeat_elapsed + 1) as u64, ..leader }
    } else {
        leader
    }
}

/// Everybody waits on.
pub open spec fn waits_on(before: ClusterV, after: ClusterV) -> bool {
    &&& after == (ClusterV { nodes: after.nodes, ..before })
    &&& after.nodes.len() == before.nodes.len()
    &&& forall|k: int|
        0 <= k < before.nodes.len() ==> only_waits(before.nodes[k], #[trigger] after.nodes[k])
}

/// What came of a tick at which the member at `i` stands for election: everybody
/// has waited on, the member has stood, and where it was elected a round of
/// heartbeats has followed.
pub open spec fn stands_at_a_tick(
    before: ClusterV,
    i: int,
    outcome: (ClusterV, Result<(), DbErrorV>),
) -> bool {
    exists|waiting: ClusterV|
        waits_on(before, waiting) && {
            let (stood, result) = #[trigger] waiting.elect(i);
            match result {
                Err(_) => outcome.0 == stood && outcome.1 is Err,
                Ok(decided) => if decided.elected {
                    outcome.0 == stood.heartbeat_round().0 && (outcome.1 is Ok
                        <==> stood.heartbeat_round().1 is Ok)
                } else {
                    outcome.0 == stood && outcome.1 is Ok
                },
            }
        }
}

/// What a tick comes to once heartbeats are sent: where nobody has waited long
/// enough, everybody waits on, and otherwise the first who has, in the order of
/// ids, stands for election.
pub open spec fn waits_or_stands(
    before: ClusterV,
    outcome: (ClusterV, Result<(), DbErrorV>),
) -> bool {
    &&& (forall|k: int| 0 <= k < before.nodes.len() ==> !has_waited(#[trigger] before.nodes[k]))
        ==> outcome.1 is Ok && waits_on(before, outcome.0)
    &&& forall|i: int|
        0 <= i < before.nodes.len() && has_waited(#[trigger] before.nodes[i]) && (forall|j: int|
            0 <= j < i ==> !has_waited(#[trigger] before.nodes[j])) ==> stands_at_a_tick(
            before,
            i,
            outcome,
        )
}

proof fn clocks_ring_in_order(c: ClusterV)
    ensures
        waits_or_stands(c, c.maybe_elect()),
{
    let outcome = c.maybe_elect();
    raft_laws::first_timeout_is_a_place(c.nodes, 0);
    assert forall|k: int| 0 <= k < c.nodes.len() implies has_waited(#[trigger] c.nodes[k])
        == c.nodes[k].election_tick().1 by {}
    let waiting = c.tick_elections();
    assert(waits_on(c, waiting)) by {
        assert forall|k: int| 0 <= k < waiting.nodes.len() implies only_waits(
            c.nodes[k],
            #[trigger] waiting.nodes[k],
        ) by {}
    }
    match raft_model::first_timeout(c.nodes, 0) {
        None => {},
        Some(at) => {
            assert(has_waited(c.nodes[at]));
            assert forall|i: int|
                0 <= i < c.nodes.len() && has_waited(#[trigger] c.nodes[i]) && (forall|j: int|
                    0 <= j < i ==> !has_waited(#[trigger] c.nodes[j])) implies stands_at_a_tick(
                c,
                i,
                outcome,
            ) by {
                if i < at {
                    assert(!c.nodes[i].election_tick().1);
                } else if at < i {
                    assert(!has_waited(c.nodes[at]));
                }
                let stood = waiting.elect(i);
            }
        },
    }
}

/// A tick takes the clocks on by one. Where a heartbeat is due it is sent first;
/// then, where nobody has waited long enough, everybody waits on, and otherwise
/// the first who has, in the order of ids, stands for election, and a new leader
/// is heard at once.
pub proof fn ticks_send_heartbeats_and_hold_elections(c: ClusterV) -> (clocked: ClusterV)
    requires
        c.wf(),
        c.room(1),
    ensures
        clock_goes_on(c, clocked),
        if heartbeat_is_due(c) {
            if clocked.heartbeat_round().1 is Err {
                c.tick().0 == clocked.heartbeat_round().0 && c.tick().1 is Err
            } else {
                waits_or_stands(clocked.heartbeat_round().0, c.tick())
            }
        } else {
            waits_or_stands(clocked, c.tick())
        },
{
    reveal(ClusterV::tick);
    raft_laws::leader_has_place(c);
    let l = c.leader_at();
    assert(c.member_ok(l));
    let (clocked, due) = c.pulse();
    assert(due == heartbeat_is_due(c));
    if !c.connected[l] || c.nodes[l].role != Role::Leader {
        assert(clocked.nodes =~= c.nodes);
    }
    clocks_ring_in_order(clocked);
    clocks_ring_in_order(clocked.heartbeat_round().0);
    clocked
}

/// Many ticks are ticks one after the other, up to the first that fails.
pub proof fn ticks_follow_each_other(c: ClusterV, ticks: nat)
    ensures
        c.tick_many(0) == (c, Ok::<(), DbErrorV>(())),
        c.tick_many(ticks).1 is Err ==> c.tick_many(ticks + 1) == c.tick_many(ticks),
        c.tick_many(ticks).1 is Ok ==> c.tick_many(ticks + 1) == c.tick_many(ticks).0.tick(),
    decreases ticks,
{
    if ticks == 0 {
        let (after, result) = c.tick();
        assert(c.tick_many(1) == (after, result)) by {
            reveal_with_fuel(ClusterV::tick_many, 2);
            match result {
                Ok(unit) => {
                    assert(unit == ());
                },
                Err(_) => {},
            }
        }
    } else if c.tick().1 is Ok {
        ticks_follow_each_other(c.tick().0, (ticks - 1) as nat);
        assert((ticks + 1 - 1) as nat == (ticks - 1) as nat + 1);
    }
}

} // verus!
