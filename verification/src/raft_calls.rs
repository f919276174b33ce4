//! What the calls of a cluster do and answer, in terms of its members.
use vstd::prelude::*;

use crate::raft_build;
use crate::raft_guarantees;
use crate::raft_guarantees::is_blank;
use crate::raft_laws;
use crate::raft_member;
use crate::raft_model;
use crate::raft_model::{ClusterV, HeartbeatRoundOutcome};
use crate::raft_node::{NodeV, Role};
use crate::raft_progress;
use crate::raft_progress::{follows, without_files};
use crate::raft_soundness;
use crate::raft_soundness::{sound, History};
use crate::raft_steps;
use crate::types::{CommandV, DbErrorV, Index, NodeId, Term};
use crate::wal::WalV;

verus! {

/// The first id that repeats one before it.
proof fn repeated_ids_are_found(ids: Seq<NodeId>, k: int)
    requires
        0 <= k <= ids.len(),
    ensures
        raft_model::first_duplicate(ids, k) matches Some(id) ==> exists|i: int, j: int|
            0 <= i < j < ids.len() && k <= j && #[trigger] ids[i] == id && #[trigger] ids[j] == id
                && forall|a: int, b: int|
                0 <= a < b < j && k <= b ==> #[trigger] ids[a] != #[trigger] ids[b],
    decreases ids.len() - k,
{
    if k < ids.len() {
        if ids.take(k).contains(ids[k]) {
            let i = choose|i: int| 0 <= i < ids.take(k).len() && ids.take(k)[i] == ids[k];
            assert(ids[i] == ids[k]);
        } else {
            repeated_ids_are_found(ids, k + 1);
            if let Some(id) = raft_model::first_duplicate(ids, k + 1) {
                let (i, j) = choose|i: int, j: int|
                    0 <= i < j < ids.len() && k + 1 <= j && #[trigger] ids[i] == id
                        && #[trigger] ids[j] == id && forall|a: int, b: int|
                        0 <= a < b < j && k + 1 <= b ==> #[trigger] ids[a] != #[trigger] ids[b];
                assert forall|a: int, b: int| 0 <= a < b < j && k <= b implies
                    #[trigger] ids[a] != #[trigger] ids[b] by {
                    if b == k {
                        assert(ids.take(k)[a] == ids[a]);
                    }
                }
            }
        }
    }
}

/// A cluster needs three members, and all of them different: fewer are refused
/// as too few, and the first id that repeats one before it is named.
pub proof fn clusters_need_three_different_members(ids: Seq<NodeId>, wals: Option<Seq<WalV>>)
    ensures
        ids.len() < 3 ==> raft_model::built(ids, wals) == Err::<ClusterV, DbErrorV>(
            DbErrorV::ClusterTooSmall,
        ),
        ids.len() >= 3 && !ids.no_duplicates() ==> exists|i: int, j: int|
            0 <= i < j < ids.len() && ids[i] == ids[j] && ids.take(j).no_duplicates()
                && raft_model::built(ids, wals) == Err::<ClusterV, DbErrorV>(
                DbErrorV::DuplicateNode(#[trigger] ids[i]),
            ) && #[trigger] ids[j] == ids[i],
        ids.len() >= 3 && ids.no_duplicates() && wals is None ==> raft_model::built(
            ids,
            wals,
        ) is Ok,
{
    raft_build::no_duplicate_means_distinct(ids, 0);
    repeated_ids_are_found(ids, 0);
    if ids.len() >= 3 && !ids.no_duplicates() {
        let id = raft_model::first_duplicate(ids, 0)->0;
        let (i, j) = choose|i: int, j: int|
            0 <= i < j < ids.len() && 0 <= j && #[trigger] ids[i] == id && #[trigger] ids[j] == id
                && forall|a: int, b: int|
                0 <= a < b < j && 0 <= b ==> #[trigger] ids[a] != #[trigger] ids[b];
        assert(ids.take(j).no_duplicates()) by {
            assert forall|a: int, b: int|
                0 <= a < ids.take(j).len() && 0 <= b < ids.take(j).len() && a != b implies ids.take(
                j,
            )[a] != ids.take(j)[b] by {
                if a < b {
                    assert(ids[a] != ids[b]);
                } else {
                    assert(ids[b] != ids[a]);
                }
            }
        }
        assert(ids[i] == ids[j]);
    }
    if ids.no_duplicates() && wals is None {
        assert forall|i: int, j: int| 0 <= i < j < ids.len() && 0 <= j implies #[trigger] ids[i]
            != #[trigger] ids[j] by {}
        new_members(ids, ids.len());
    }
}

/// Members without files, one for each id and in the same order.
proof fn new_members(ids: Seq<NodeId>, k: nat)
    requires
        k <= ids.len(),
    ensures
        raft_model::restored_members(ids, None, k) matches Ok((members, term)) && term == 1
            && members.len() == k && forall|i: int|
            0 <= i < k ==> #[trigger] members[i] == NodeV::fresh(ids[i], Role::Follower, 1),
    decreases k,
{
    if k > 0 {
        new_members(ids, (k - 1) as nat);
    }
}

/// The member that leads is one that nobody ranks above: nobody has committed
/// more, nobody who has committed as much has a longer log, and of those that
/// are equal in both it is the first.
pub proof fn the_highest_rank_leads(members: Seq<NodeV>, k: nat)
    requires
        0 < k <= members.len(),
    ensures
        ({
            let best = raft_model::highest_rank(members, k);
            let leader = members[best];
            &&& 0 <= best < k
            &&& forall|j: int|
                0 <= j < k ==> (#[trigger] members[j]).commit_index < leader.commit_index || (
                members[j].commit_index == leader.commit_index && members[j].log.last_index()
                    <= leader.log.last_index())
            &&& forall|j: int|
                0 <= j < best ==> (#[trigger] members[j]).commit_index < leader.commit_index || (
                members[j].commit_index == leader.commit_index && members[j].log.last_index()
                    < leader.log.last_index())
        }),
    decreases k,
{
    if k > 1 {
        the_highest_rank_leads(members, (k - 1) as nat);
    }
}

/// A new cluster: the first of the given ids leads, in term one; everybody is
/// connected and has nothing; and the members stand in the order of their ids.
pub proof fn new_clusters_start_with_nothing(ids: Seq<NodeId>, c: ClusterV)
    requires
        raft_model::built(ids, None) == Ok::<ClusterV, DbErrorV>(c),
    ensures
        c.leader_id == ids[0],
        c.current_term == 1,
        c.clock_ticks == 0,
        c.heartbeat_interval_ticks == 2,
        c.nodes.len() == ids.len(),
        c.connected.len() == ids.len(),
        raft_model::ids_ascend(c.nodes),
        forall|id: NodeId| #[trigger] raft_model::has_member(c.nodes, id) <==> ids.contains(id),
        forall|i: int|
            0 <= i < c.nodes.len() ==> {
                &&& is_blank(#[trigger] c.nodes[i])
                &&& c.nodes[i].wal is None
                &&& c.nodes[i].voted_for is None
                &&& c.nodes[i].role == if c.nodes[i].id == ids[0] {
                    Role::Leader
                } else {
                    Role::Follower
                }
                &&& c.connected[i]
                &&& c.next_index[i] == 1
                &&& c.match_index[i] == 0
            },
{
    raft_build::no_duplicate_means_distinct(ids, 0);
    new_members(ids, ids.len());
    let members = raft_model::restored_members(ids, None, ids.len())->Ok_0.0;
    the_highest_rank_leads(members, ids.len());
    let best = raft_model::highest_rank(members, ids.len());
    assert(best == 0) by {
        if best > 0 {
            assert(members[0] == NodeV::fresh(ids[0], Role::Follower, 1));
            assert(members[best] == NodeV::fresh(ids[best], Role::Follower, 1));
        }
    }
    assert forall|i: int, j: int| 0 <= i < j < members.len() implies (#[trigger] members[i]).id != (
    #[trigger] members[j]).id by {
        assert(ids[i] != ids[j]);
    }
    raft_build::ordering_ascends(members);
    raft_guarantees::ordering_keeps_members(members);
    let nodes = raft_model::by_id(members);
    assert forall|i: int| 0 <= i < nodes.len() implies exists|j: int|
        0 <= j < ids.len() && (#[trigger] nodes[i]) == NodeV::fresh(
            #[trigger] ids[j],
            Role::Follower,
            1,
        ) by {
        assert(nodes.contains(nodes[i]));
        let j = choose|j: int| 0 <= j < members.len() && members[j] == nodes[i];
        assert(nodes[i] == NodeV::fresh(ids[j], Role::Follower, 1));
    }
    assert(raft_model::has_member(members, ids[0])) by {
        assert(members[0].id == ids[0]);
    }
    let at = raft_model::position(nodes, ids[0]);
    assert(raft_model::has_member(nodes, ids[0]));
    assert(0 <= at < nodes.len() && nodes[at].id == ids[0]);
    let last = nodes[at].log.last_index();
    assert(last == 0);
    raft_model::short_logs_resume(nodes, 1, last);
    assert(c == raft_model::assembled(nodes, 1, ids[0]));
    assert forall|i: int| 0 <= i < c.nodes.len() implies (#[trigger] c.nodes[i]).id
        == nodes[i].id by {
        assert(c.nodes[i] == raft_model::enrolled(nodes[i], 1, ids[0]));
    }
    assert forall|id: NodeId| #[trigger] raft_model::has_member(c.nodes, id) <==> ids.contains(
        id,
    ) by {
        if raft_model::has_member(c.nodes, id) {
            let i = choose|i: int| 0 <= i < c.nodes.len() && (#[trigger] c.nodes[i]).id == id;
            assert(nodes[i].id == id);
            let j = choose|j: int|
                0 <= j < ids.len() && nodes[i] == NodeV::fresh(
                    #[trigger] ids[j],
                    Role::Follower,
                    1,
                );
            assert(ids[j] == id);
        }
        if ids.contains(id) {
            let j = choose|j: int| 0 <= j < ids.len() && ids[j] == id;
            assert(members[j].id == id);
            assert(raft_model::has_member(members, id));
            assert(raft_model::has_member(nodes, id));
            let i = choose|i: int| 0 <= i < nodes.len() && (#[trigger] nodes[i]).id == id;
            assert(c.nodes[i].id == id);
        }
    }
    assert forall|i: int| 0 <= i < c.nodes.len() implies {
        &&& is_blank(#[trigger] c.nodes[i])
        &&& c.nodes[i].wal is None
        &&& c.nodes[i].voted_for is None
    } by {
        assert(c.nodes[i] == raft_model::enrolled(nodes[i], 1, ids[0]));
        let j = choose|j: int|
            0 <= j < ids.len() && nodes[i] == NodeV::fresh(#[trigger] ids[j], Role::Follower, 1);
    }
}

/// How many numbers reach a least one: each counts once, and only where it is
/// not below.
pub proof fn numbers_are_counted(numbers: Seq<Index>, number: Index, least: Index)
    ensures
        raft_model::count_reaching(Seq::empty(), least) == 0,
        raft_model::count_reaching(numbers.push(number), least) == raft_model::count_reaching(
            numbers,
            least,
        ) + if number >= least {
            1int
        } else {
            0int
        },
{
    assert(numbers.push(number).drop_last() =~= numbers);
}

/// A majority is more than half of the members, and no smaller number is.
pub proof fn quorums_are_majorities(c: ClusterV)
    ensures
        2 * c.quorum() > c.nodes.len(),
        2 * (c.quorum() - 1) <= c.nodes.len(),
{
}

/// A proposal is taken only by a leader in office, as the next entry of its log
/// in its term; and the outcome names its index and how many members have then
/// committed it.
pub proof fn proposals_say_who_has_committed(c: ClusterV, command: CommandV)
    requires
        c.wf(),
        c.log_room(1),
    ensures
        ({
            let (after, result) = c.propose(command);
            let leader = c.nodes[c.leader_at()];
            &&& leader.role != Role::Leader ==> after == c && result == Err::<
                raft_model::ProposalOutcome,
                DbErrorV,
            >(DbErrorV::LeaderMissing(c.leader_id))
            &&& result matches Ok(outcome) ==> {
                &&& leader.role == Role::Leader
                &&& outcome.index == leader.log.last_index() + 1
                &&& outcome.committed_nodes == raft_model::count_reaching(
                    Seq::new(after.nodes.len(), |i: int| after.nodes[i].commit_index),
                    outcome.index,
                )
            }
        }),
{
    reveal(ClusterV::propose);
    raft_laws::proposing_takes_room(c, command, 1);
    raft_laws::leader_has_place(c);
    assert(c.member_ok(c.leader_at()));
    let after = c.propose(command).0;
    assert(after.nodes.len() == c.nodes.len());
    if let Ok(outcome) = c.propose(command).1 {
        raft_model::counts_are_bounded(raft_model::commits(after.nodes), outcome.index);
    }
}

/// The name of a member that there is not is answered with that name, and changes
/// nothing.
pub proof fn unknown_members_are_not_found(c: ClusterV, id: NodeId)
    requires
        forall|i: int| 0 <= i < c.nodes.len() ==> (#[trigger] c.nodes[i]).id != id,
    ensures
        c.disconnect(id) == (c, Err::<(), DbErrorV>(DbErrorV::NodeNotFound(id))),
        c.reconnect(id) == (c, Err::<(), DbErrorV>(DbErrorV::NodeNotFound(id))),
        c.start_election(id).0 == c,
        c.start_election(id).1 is Err && c.start_election(id).1->Err_0 == DbErrorV::NodeNotFound(
            id,
        ),
{
}

/// A member that is disconnected is so, and nothing else changes.
pub proof fn disconnecting_cuts_one_off(c: ClusterV, i: int, k: int)
    requires
        c.wf(),
        0 <= i < c.nodes.len(),
        0 <= k < c.nodes.len(),
    ensures
        ({
            let (after, result) = c.disconnect(c.nodes[i].id);
            &&& result is Ok
            &&& !after.connected[i]
            &&& k != i ==> after.connected[k] == c.connected[k]
            &&& after == (ClusterV { connected: after.connected, ..c })
        }),
{
    raft_laws::position_is(c.nodes, c.nodes[i].id, i);
}

/// A member that is reconnected is so, and everybody else stays as connected as
/// before.
pub proof fn reconnecting_joins_one(c: ClusterV, i: int, k: int)
    requires
        c.wf(),
        0 <= i < c.nodes.len(),
        0 <= k < c.nodes.len(),
    ensures
        ({
            let (after, result) = c.reconnect(c.nodes[i].id);
            &&& after.connected[i]
            &&& k != i ==> after.connected[k] == c.connected[k]
            &&& after.leader_id == c.leader_id
        }),
{
    raft_laws::position_is(c.nodes, c.nodes[i].id, i);
    let l = c.leader_at();
    raft_laws::leader_has_place(c);
    let joined = ClusterV { connected: c.connected.update(i, true), ..c };
    raft_steps::connecting_keeps(c, joined);
    raft_laws::valid_is_bounded(joined);
    let most = (u64::MAX - 1) as u64;
    raft_laws::heartbeats_keep(joined, u64::MAX, most);
    raft_laws::replicating_keeps(joined, l, i, u64::MAX, most);
    let told = joined.replicate(l, i).0;
    raft_laws::replicating_from_keeps(told, l, 0, told.nodes.len() as int, 0, u64::MAX, most);
}

/// A round of heartbeats is held only by a leader in office, and its outcome
/// names that leader, its term and what a majority is.
pub proof fn heartbeats_name_their_leader(c: ClusterV)
    requires
        c.wf(),
    ensures
        ({
            let (after, result) = c.heartbeat_round();
            let leader = c.nodes[c.leader_at()];
            &&& leader.role != Role::Leader ==> after == c && result == Err::<
                HeartbeatRoundOutcome,
                DbErrorV,
            >(DbErrorV::LeaderMissing(c.leader_id))
            &&& result matches Ok(outcome) ==> {
                &&& leader.role == Role::Leader
                &&& outcome.leader_id == c.leader_id
                &&& outcome.term == leader.current_term
                &&& outcome.quorum == c.nodes.len() / 2 + 1
            }
        }),
{
    reveal(ClusterV::heartbeat_round);
    raft_laws::leader_has_place(c);
}

/// The leader's snapshot ends with what the leader has committed, and nobody
/// else changes.
pub proof fn snapshots_are_of_the_leader(c: ClusterV, k: int)
    requires
        c.wf(),
        0 <= k < c.nodes.len(),
        c.nodes[c.leader_at()].commit_index <= c.nodes[c.leader_at()].log.last_index(),
    ensures
        ({
            let (after, result) = c.create_leader_snapshot();
            let leader = c.nodes[c.leader_at()];
            &&& k != c.leader_at() ==> after.nodes[k] == c.nodes[k]
            &&& result matches Ok(made) ==> made == if leader.commit_index == 0 {
                None
            } else {
                Some(leader.commit_index)
            }
            &&& after.leader_id == c.leader_id && after.connected == c.connected
                && after.clock_ticks == c.clock_ticks
        }),
{
    raft_laws::leader_has_place(c);
    assert(c.member_ok(c.leader_at()));
    raft_member::snapshots_end_with_what_is_committed(c.nodes[c.leader_at()], 0);
}

/// A member in a later term takes nothing from a leader.
proof fn later_terms_refuse(c: ClusterV, l: int, i: int, sent: bool)
    requires
        0 <= l < c.nodes.len(),
        0 <= i < c.nodes.len(),
        i != l,
        c.next_index.len() == c.nodes.len(),
        c.nodes[i].current_term > c.nodes[l].current_term,
    ensures
        c.catch_up(l, i, sent).1 != Ok::<bool, DbErrorV>(true),
    decreases
            (if sent {
                0int
            } else {
                1int
            }), c.next_index[i],
{
    let leader = c.nodes[l];
    let next = c.next_index[i];
    let last = leader.log.last_index();
    if next > last + 1 {
        later_terms_refuse(c.with_next(i, (last + 1) as u64), l, i, sent);
    } else if next <= leader.log.base_index {
        if leader.snapshot is Some && !sent {
            let data = leader.snapshot->0;
            assert(c.nodes[i].install_snapshot(leader.current_term, data, leader.commit_index).1
                == Ok::<bool, DbErrorV>(false)) by {
                reveal(NodeV::install_snapshot);
            }
        }
    } else {
        let prev = if next > 0 {
            (next - 1) as u64
        } else {
            0
        };
        let prev_term = if prev == 0 {
            Some(0)
        } else {
            leader.log.term_at(prev)
        };
        match prev_term {
            None => {
                if next > 1 {
                    later_terms_refuse(c.with_next(i, (next - 1) as u64), l, i, sent);
                }
            },
            Some(term) => {
                assert(c.nodes[i].append_entries(
                    leader.current_term,
                    prev,
                    term,
                    leader.log.entries_from(next),
                    leader.commit_index,
                ) == (c.nodes[i], Ok::<bool, DbErrorV>(false))) by {
                    reveal(NodeV::append_entries);
                }
                assert(c.with_node(i, c.nodes[i]) == c) by {
                    assert(c.nodes.update(i, c.nodes[i]) =~= c.nodes);
                }
                if next > 1 {
                    later_terms_refuse(c.with_next(i, (next - 1) as u64), l, i, sent);
                }
            },
        }
    }
}

/// How many members from place `k` on, beside the one at `l`, follow it.
pub open spec fn others_following(c: ClusterV, l: int, k: int) -> nat
    decreases c.nodes.len() - k,
{
    if k >= c.nodes.len() {
        0
    } else if k != l && follows(c, l, k) {
        others_following(c, l, k + 1) + 1
    } else {
        others_following(c, l, k + 1)
    }
}

proof fn later_followers_stay(c: ClusterV, d: ClusterV, l: int, k: int)
    requires
        d.nodes.len() == c.nodes.len(),
        d.connected == c.connected,
        d.nodes[l] == c.nodes[l],
        forall|j: int| k <= j < c.nodes.len() ==> #[trigger] d.nodes[j] == c.nodes[j],
    ensures
        others_following(d, l, k) == others_following(c, l, k),
    decreases c.nodes.len() - k,
{
    if k < c.nodes.len() {
        later_followers_stay(c, d, l, k + 1);
        assert(d.nodes[k] == c.nodes[k]);
    }
}

proof fn acknowledgements_are_counted(c: ClusterV, h: History, l: int, k: int, acks: int)
    requires
        h.explains(c, l),
        c.available(l),
        without_files(c),
        0 <= k <= c.nodes.len(),
    ensures
        c.replicate_from(l, k, c.nodes.len() as int, acks).1 == Ok::<int, DbErrorV>(
            acks + others_following(c, l, k),
        ),
    decreases c.nodes.len() - k,
{
    raft_soundness::explained_place(c, h, l);
    if k < c.nodes.len() {
        if k == l {
            acknowledgements_are_counted(c, h, l, k + 1, acks);
        } else {
            raft_laws::valid_is_bounded(c);
            raft_laws::replicating_keeps(c, l, k, u64::MAX, (u64::MAX - 1) as u64);
            let (d, result) = c.replicate(l, k);
            let g = raft_steps::replicating_is_explained(c, h, l, k);
            assert(c.nodes[k].wal is None);
            assert(sound(c));
            if follows(c, l, k) {
                raft_guarantees::connected_members_catch_up(c, k);
            } else {
                reveal(ClusterV::replicate);
                if c.connected[k] {
                    later_terms_refuse(c, l, k, false);
                    raft_soundness::explained_member(c, h, l, k);
                }
            }
            raft_progress::many_are_brought_up(c, h, l, k, k + 1, 0);
            assert(c.replicate_from(l, k, k + 1, 0).1 is Ok);
            assert(result is Ok);
            assert(without_files(d)) by {
                assert forall|j: int| 0 <= j < d.nodes.len() implies (
                #[trigger] d.nodes[j]).wal is None by {
                    assert(c.nodes[j].wal is None);
                    if j == k {
                        raft_progress::catching_up_is_known(c, l, k, false);
                        reveal(ClusterV::replicate);
                    }
                }
            }
            raft_soundness::explained_place(d, g, l);
            let more = if result->Ok_0 {
                acks + 1
            } else {
                acks
            };
            acknowledgements_are_counted(d, g, l, k + 1, more);
            later_followers_stay(c, d, l, k + 1);
        }
    }
}

/// In a round of heartbeats of a leader that is connected, without files, the
/// leader and everybody who follows it acknowledges: who is connected and in no
/// later term. Where the leader is cut off, nobody does.
pub proof fn followers_acknowledge(c: ClusterV)
    requires
        sound(c),
        without_files(c),
        c.nodes[c.leader_at()].role == Role::Leader,
    ensures
        c.heartbeat_round().1 matches Ok(outcome) && outcome.acknowledged_nodes
            == if c.connected[c.leader_at()] {
            1 + others_following(c, c.leader_at(), 0)
        } else {
            0
        },
{
    reveal(ClusterV::heartbeat_round);
    let l = c.leader_at();
    let h = choose|h: History| #[trigger] h.explains(c, l);
    raft_soundness::explained_place(c, h, l);
    if c.connected[l] {
        acknowledgements_are_counted(c, h, l, 0, 1);
        followers_are_members(c, l, 0);
    } else {
        nobody_hears(c, l, 0);
    }
}

proof fn followers_are_members(c: ClusterV, l: int, k: int)
    requires
        0 <= l < c.nodes.len(),
        0 <= k <= c.nodes.len(),
    ensures
        others_following(c, l, k) <= c.nodes.len() - k - if k <= l {
            1int
        } else {
            0int
        },
    decreases c.nodes.len() - k,
{
    if k < c.nodes.len() {
        followers_are_members(c, l, k + 1);
    }
}

proof fn nobody_hears(c: ClusterV, l: int, k: int)
    requires
        0 <= l < c.nodes.len(),
        0 <= k <= c.nodes.len(),
        !c.connected[l],
    ensures
        c.replicate_from(l, k, c.nodes.len() as int, 0) == (c, Ok::<int, DbErrorV>(0)),
    decreases c.nodes.len() - k,
{
    reveal(ClusterV::replicate);
    if k < c.nodes.len() {
        nobody_hears(c, l, k + 1);
    }
}

/// The leader commits the greatest index, up to a given one, that a majority
/// holds as far as it knows and that it has written in its own term; and nothing
/// new where there is none.
pub proof fn leaders_commit_what_a_majority_holds(c: ClusterV, l: int, candidate: Index)
    ensures
        ({
            let leader = c.nodes[l];
            let point = c.commit_point(l, candidate);
            &&& point > leader.commit_index ==> point <= candidate && 2 * raft_model::count_reaching(
                c.match_index,
                point,
            ) > c.nodes.len() && leader.log.term_at(point) == Some(leader.current_term)
            &&& point >= leader.commit_index
            &&& forall|index: Index|
                point < index <= candidate ==> !(2 * (#[trigger] raft_model::count_reaching(
                    c.match_index,
                    index,
                )) > c.nodes.len() && leader.log.term_at(index) == Some(leader.current_term))
        }),
    decreases candidate,
{
    let leader = c.nodes[l];
    if candidate > leader.commit_index && !(raft_model::count_reaching(c.match_index, candidate)
        >= c.quorum() && leader.log.term_at(candidate) == Some(leader.current_term)) {
        leaders_commit_what_a_majority_holds(c, l, (candidate - 1) as u64);
    }
}

/// A member that has taken everything from a leader is known to hold the leader's
/// log through its end, and is sent what comes behind it next. Bringing it up
/// changes nobody else, and nothing that is known of anybody else.
pub proof fn who_has_taken_everything_is_known(
    c: ClusterV,
    l: int,
    i: int,
    k: int,
    sent: bool,
)
    requires
        0 <= l < c.nodes.len(),
        0 <= i < c.nodes.len(),
        0 <= k < c.nodes.len(),
        i != l,
        k != i,
        c.next_index.len() == c.nodes.len(),
        c.match_index.len() == c.nodes.len(),
        c.nodes[l].log.last_index() < u64::MAX,
    ensures
        ({
            let (after, result) = c.catch_up(l, i, sent);
            let last = c.nodes[l].log.last_index();
            &&& result == Ok::<bool, DbErrorV>(true) ==> after.match_index[i] == last
                && after.next_index[i] == last + 1
            &&& after.nodes[k] == c.nodes[k] && after.match_index[k] == c.match_index[k]
                && after.next_index[k] == c.next_index[k]
            &&& after.leader_id == c.leader_id && after.connected == c.connected
                && after.clock_ticks == c.clock_ticks && after.current_term == c.current_term
        }),
    decreases
            (if sent {
                0int
            } else {
                1int
            }), c.next_index[i],
{
    let leader = c.nodes[l];
    let next = c.next_index[i];
    let last = leader.log.last_index();
    if next > last + 1 {
        who_has_taken_everything_is_known(c.with_next(i, (last + 1) as u64), l, i, k, sent);
    } else if next <= leader.log.base_index {
        if let Some(data) = leader.snapshot {
            if !sent {
                let (node, result) = c.nodes[i].install_snapshot(
                    leader.current_term,
                    data,
                    leader.commit_index,
                );
                if result == Ok::<bool, DbErrorV>(true) {
                    let d = c.with_node(i, node).with_progress(i, data.last_included_index);
                    assert(d.nodes[l] == c.nodes[l]);
                    who_has_taken_everything_is_known(d, l, i, k, true);
                }
            }
        }
    } else {
        let prev = if next > 0 {
            (next - 1) as u64
        } else {
            0
        };
        let prev_term = if prev == 0 {
            Some(0)
        } else {
            leader.log.term_at(prev)
        };
        match prev_term {
            None => {
                if next > 1 {
                    who_has_taken_everything_is_known(
                        c.with_next(i, (next - 1) as u64),
                        l,
                        i,
                        k,
                        sent,
                    );
                }
            },
            Some(term) => {
                let (node, result) = c.nodes[i].append_entries(
                    leader.current_term,
                    prev,
                    term,
                    leader.log.entries_from(next),
                    leader.commit_index,
                );
                let after = c.with_node(i, node);
                if result == Ok::<bool, DbErrorV>(false) && next > 1 {
                    assert(after.nodes[l] == c.nodes[l]);
                    who_has_taken_everything_is_known(
                        after.with_next(i, (next - 1) as u64),
                        l,
                        i,
                        k,
                        sent,
                    );
                }
            },
        }
    }
}

} // verus!
