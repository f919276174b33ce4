//! What holds after any calls, in any order: of clusters in memory, and of
//! clusters that keep files and are restarted in between.
use vstd::prelude::*;

use crate::raft_guarantees;
use crate::raft_guarantees::leads_to;
use crate::raft_history;
use crate::raft_laws;
use crate::raft_model;
use crate::raft_model::ClusterV;
use crate::raft_node::{NodeV, Role};
use crate::raft_node_laws;
use crate::raft_persistence;
use crate::raft_persistence::{can_be_kept, kept};
use crate::raft_restart;
use crate::raft_soundness;
use crate::raft_soundness::{sound, History};
use crate::raft_steps;
use crate::raft_visibility;
use crate::raft_visibility::settled;
use crate::types::{CommandV, DbErrorV, LogEntryV, NodeId};
use crate::wal;
use crate::wal::WalV;

verus! {

/// A call that changes a cluster, or a restart from the files of its members,
/// given in the order of the ids.
pub enum CallV {
    Propose { command: CommandV },
    Heartbeats,
    Election { id: NodeId },
    Tick,
    Ticks { ticks: nat },
    Disconnect { id: NodeId },
    Reconnect { id: NodeId },
    Snapshot,
    Restart { ids: Seq<NodeId> },
}

/// The files of the members with the ids.
pub open spec fn files(c: ClusterV, ids: Seq<NodeId>) -> Seq<WalV> {
    Seq::new(ids.len(), |k: int| c.nodes[raft_model::position(c.nodes, ids[k])].wal->0)
}

/// The ids are those of all members, each once.
pub open spec fn all_ids(c: ClusterV, ids: Seq<NodeId>) -> bool {
    &&& ids.len() >= 3
    &&& ids.no_duplicates()
    &&& forall|i: int| 0 <= i < c.nodes.len() ==> ids.contains((#[trigger] c.nodes[i]).id)
    &&& forall|k: int| 0 <= k < ids.len() ==> raft_model::has_member(c.nodes, #[trigger] ids[k])
}

/// The cluster after a call.
pub open spec fn after_call(c: ClusterV, call: CallV) -> ClusterV {
    match call {
        CallV::Propose { command } => c.propose(command).0,
        CallV::Heartbeats => c.heartbeat_round().0,
        CallV::Election { id } => c.start_election(id).0,
        CallV::Tick => c.tick().0,
        CallV::Ticks { ticks } => c.tick_many(ticks).0,
        CallV::Disconnect { id } => c.disconnect(id).0,
        CallV::Reconnect { id } => c.reconnect(id).0,
        CallV::Snapshot => c.create_leader_snapshot().0,
        CallV::Restart { ids } => match raft_model::built(ids, Some(files(c, ids))) {
            Ok(again) => again,
            Err(_) => c,
        },
    }
}

/// The clock, the terms and the logs leave room for a call.
pub open spec fn has_room(c: ClusterV, call: CallV) -> bool {
    match call {
        CallV::Propose { .. } => c.log_room(1),
        CallV::Election { .. } => c.term_room(1),
        CallV::Tick => c.room(1),
        CallV::Ticks { ticks } => c.room(ticks as int),
        CallV::Restart { .. } => c.term_room(1),
        _ => true,
    }
}

/// The files take what a call puts there, and a restart is from all of them.
pub open spec fn files_take(c: ClusterV, call: CallV) -> bool {
    match call {
        CallV::Propose { command } => can_be_kept(c, command),
        CallV::Snapshot => c.create_leader_snapshot().1 is Ok,
        CallV::Restart { ids } => all_ids(c, ids),
        _ => true,
    }
}

/// The cluster after calls, one after the other.
pub open spec fn after_calls(c: ClusterV, calls: Seq<CallV>) -> ClusterV
    decreases calls.len(),
{
    if calls.len() == 0 {
        c
    } else {
        after_call(after_calls(c, calls.drop_last()), calls.last())
    }
}

/// Calls that a cluster in memory can be asked for: any but restarts, as long as
/// there is room.
pub open spec fn can_be_called(c: ClusterV, calls: Seq<CallV>) -> bool
    decreases calls.len(),
{
    calls.len() == 0 || {
        &&& can_be_called(c, calls.drop_last())
        &&& !(calls.last() is Restart)
        &&& has_room(after_calls(c, calls.drop_last()), calls.last())
    }
}

/// Calls that a cluster with files can be asked for: any, restarts among them,
/// as long as there is room and the files take them.
pub open spec fn can_be_survived(c: ClusterV, calls: Seq<CallV>) -> bool
    decreases calls.len(),
{
    calls.len() == 0 || {
        let before = after_calls(c, calls.drop_last());
        &&& can_be_survived(c, calls.drop_last())
        &&& has_room(before, calls.last())
        &&& files_take(before, calls.last())
    }
}

/// The files of all members are theirs.
proof fn files_are_theirs(c: ClusterV, ids: Seq<NodeId>)
    requires
        kept(c),
        all_ids(c, ids),
    ensures
        raft_restart::files_of(c, ids, files(c, ids)),
{
    let images = files(c, ids);
    let h = choose|h: History| #[trigger] raft_persistence::all_keep(c, h, c.leader_at());
    assert forall|k: int| 0 <= k < ids.len() implies raft_model::has_member(
        c.nodes,
        #[trigger] ids[k],
    ) && c.nodes[raft_model::position(c.nodes, ids[k])].wal == Some(images[k]) by {
        let i = raft_model::position(c.nodes, ids[k]);
        assert(raft_model::has_member(c.nodes, ids[k]));
        assert(raft_persistence::keeps(c.nodes[i]));
        reveal(raft_persistence::keeps);
    }
}

/// Every call but a restart leads on.
pub proof fn calls_lead_on(c: ClusterV, call: CallV)
    requires
        sound(c),
        has_room(c, call),
        !(call is Restart),
    ensures
        leads_to(c, after_call(c, call)),
        sound(after_call(c, call)),
{
    match call {
        CallV::Propose { command } => raft_guarantees::proposals_lead_on(c, command),
        CallV::Heartbeats => raft_guarantees::heartbeats_lead_on(c),
        CallV::Election { id } => raft_guarantees::elections_lead_on(c, id),
        CallV::Tick => raft_guarantees::ticks_lead_on(c),
        CallV::Ticks { ticks } => {
            let h = choose|h: History| #[trigger] h.explains(c, c.leader_at());
            raft_soundness::explained_place(c, h, c.leader_at());
            raft_guarantees::many_ticks_lead_on(c, ticks);
        },
        CallV::Disconnect { id } => raft_guarantees::disconnecting_leads_on(c, id),
        CallV::Reconnect { id } => raft_guarantees::reconnecting_leads_on(c, id),
        CallV::Snapshot => raft_guarantees::snapshots_lead_on(c),
        CallV::Restart { .. } => {},
    }
}

/// Every call that the files take leads on, restarts among them, and leaves files
/// that stand for all members.
pub proof fn calls_are_survived(c: ClusterV, call: CallV)
    requires
        kept(c),
        has_room(c, call),
        files_take(c, call),
    ensures
        leads_to(c, after_call(c, call)),
        kept(after_call(c, call)),
        sound(after_call(c, call)),
{
    let h = choose|h: History| #[trigger] raft_persistence::all_keep(c, h, c.leader_at());
    assert(h.explains(c, c.leader_at()));
    assert(sound(c));
    match call {
        CallV::Propose { command } => raft_persistence::proposals_are_kept(c, command),
        CallV::Heartbeats => raft_persistence::heartbeats_are_kept(c),
        CallV::Election { id } => raft_persistence::elections_are_kept(c, id),
        CallV::Tick => raft_persistence::ticks_are_kept(c, 1),
        CallV::Ticks { ticks } => raft_persistence::ticks_are_kept(c, ticks),
        CallV::Disconnect { id } => raft_persistence::connections_are_kept(c, id),
        CallV::Reconnect { id } => raft_persistence::connections_are_kept(c, id),
        CallV::Snapshot => raft_persistence::snapshots_are_kept(c),
        CallV::Restart { ids } => {
            files_are_theirs(c, ids);
            raft_restart::restarts_are_kept(c, ids, files(c, ids));
            raft_restart::restarts_lead_on(c, ids, files(c, ids));
        },
    }
    if !(call is Restart) {
        calls_lead_on(c, call);
    }
}

/// Whatever calls a cluster in memory has seen, it is sound, and what was
/// committed before them is committed after them.
pub proof fn runs_are_sound(c: ClusterV, calls: Seq<CallV>)
    requires
        sound(c),
        can_be_called(c, calls),
    ensures
        sound(after_calls(c, calls)),
        leads_to(c, after_calls(c, calls)),
    decreases calls.len(),
{
    if calls.len() == 0 {
        raft_guarantees::leading_nowhere(c);
    } else {
        let before = after_calls(c, calls.drop_last());
        runs_are_sound(c, calls.drop_last());
        calls_lead_on(before, calls.last());
        raft_guarantees::leading_twice(c, before, after_calls(c, calls));
    }
}

/// Whatever calls and restarts a cluster with files has seen, it is sound, its
/// files stand for all members, and what was committed before is committed
/// after.
pub proof fn runs_are_kept(c: ClusterV, calls: Seq<CallV>)
    requires
        kept(c),
        can_be_survived(c, calls),
    ensures
        kept(after_calls(c, calls)),
        sound(after_calls(c, calls)),
        leads_to(c, after_calls(c, calls)),
    decreases calls.len(),
{
    if calls.len() == 0 {
        let h = choose|h: History| #[trigger] raft_persistence::all_keep(c, h, c.leader_at());
        assert(h.explains(c, c.leader_at()));
        raft_guarantees::leading_nowhere(c);
    } else {
        let before = after_calls(c, calls.drop_last());
        runs_are_kept(c, calls.drop_last());
        calls_are_survived(before, calls.last());
        raft_guarantees::leading_twice(c, before, after_calls(c, calls));
    }
}

/// Whatever calls and restarts come, what was settled stays settled.
pub proof fn runs_stay_settled(c: ClusterV, calls: Seq<CallV>, entry: LogEntryV)
    requires
        settled(c, entry),
        can_be_called(c, calls) || (kept(c) && can_be_survived(c, calls)),
    ensures
        settled(after_calls(c, calls), entry),
    decreases calls.len(),
{
    if calls.len() > 0 {
        let before = after_calls(c, calls.drop_last());
        runs_stay_settled(c, calls.drop_last(), entry);
        match calls.last() {
            CallV::Propose { command } => {
                raft_visibility::proposals_stay_settled(before, command, entry);
            },
            CallV::Heartbeats => raft_visibility::heartbeats_stay_settled(before, entry),
            CallV::Election { id } => raft_visibility::elections_stay_settled(before, id, entry),
            CallV::Tick => raft_visibility::ticks_stay_settled(before, entry),
            CallV::Ticks { ticks } => {
                raft_visibility::many_ticks_stay_settled(before, ticks, entry);
            },
            CallV::Disconnect { id } => {
                raft_visibility::connections_stay_settled(before, id, entry);
            },
            CallV::Reconnect { id } => {
                raft_visibility::connections_stay_settled(before, id, entry);
            },
            CallV::Snapshot => raft_visibility::snapshots_stay_settled(before, entry),
            CallV::Restart { ids } => {
                runs_are_kept(c, calls.drop_last());
                files_are_theirs(before, ids);
                raft_restart::restarts_stay_settled(before, ids, files(before, ids), entry);
            },
        }
    }
}

/// The same members, none of them in an earlier term or with less committed.
pub open spec fn never_back(before: ClusterV, after: ClusterV) -> bool {
    &&& after.nodes.len() == before.nodes.len()
    &&& forall|i: int|
        0 <= i < before.nodes.len() ==> {
            &&& (#[trigger] after.nodes[i]).id == before.nodes[i].id
            &&& before.nodes[i].current_term <= after.nodes[i].current_term
            &&& before.nodes[i].commit_index <= after.nodes[i].commit_index
        }
}

/// What is committed lies in the log, behind what is compacted; members who have
/// committed as much are in the same state; and there is at most one leader, the
/// one that the cluster names.
pub open spec fn guarded(c: ClusterV) -> bool {
    &&& forall|i: int|
        0 <= i < c.nodes.len() ==> {
            &&& (#[trigger] c.nodes[i]).log.base_index <= c.nodes[i].commit_index
                <= c.nodes[i].log.last_index()
            &&& c.nodes[i].role == Role::Leader ==> c.nodes[i].id == c.leader_id
        }
    &&& forall|i: int, j: int|
        0 <= i < c.nodes.len() && 0 <= j < c.nodes.len() && c.nodes[i].commit_index
            == c.nodes[j].commit_index ==> (#[trigger] c.nodes[i]).state == (
        #[trigger] c.nodes[j]).state
    &&& forall|i: int, j: int|
        0 <= i < c.nodes.len() && 0 <= j < c.nodes.len() && (#[trigger] c.nodes[i]).role
            == Role::Leader && (#[trigger] c.nodes[j]).role == Role::Leader ==> i == j
}

/// Sound clusters are guarded.
pub proof fn sound_clusters_are_guarded(c: ClusterV)
    requires
        sound(c),
    ensures
        guarded(c),
{
    let h = choose|h: History| #[trigger] h.explains(c, c.leader_at());
    raft_soundness::explained_place(c, h, c.leader_at());
    assert forall|i: int| 0 <= i < c.nodes.len() implies {
        &&& (#[trigger] c.nodes[i]).log.base_index <= c.nodes[i].commit_index
            <= c.nodes[i].log.last_index()
        &&& c.nodes[i].role == Role::Leader ==> c.nodes[i].id == c.leader_id
    } by {
        raft_guarantees::commits_lie_in_the_log(c, i);
        assert(c.member_ok(i));
    }
    assert forall|i: int, j: int|
        0 <= i < c.nodes.len() && 0 <= j < c.nodes.len() && c.nodes[i].commit_index
            == c.nodes[j].commit_index implies (#[trigger] c.nodes[i]).state == (
    #[trigger] c.nodes[j]).state by {
        raft_guarantees::equal_commits_equal_states(c, i, j);
    }
}

/// No call takes a term or a commit index back.
pub proof fn calls_never_go_back(c: ClusterV, call: CallV)
    requires
        c.wf(),
        has_room(c, call),
        !(call is Restart),
    ensures
        never_back(c, after_call(c, call)),
        call is Tick ==> after_call(c, call).clock_ticks == c.clock_ticks + 1,
{
    let most = (u64::MAX - 1) as u64;
    let l = c.leader_at();
    raft_laws::leader_has_place(c);
    raft_laws::valid_is_bounded(c);
    match call {
        CallV::Propose { command } => raft_laws::proposing_takes_room(c, command, 1),
        CallV::Heartbeats => raft_laws::heartbeats_take_no_room(c),
        CallV::Election { id } => {
            if raft_model::has_member(c.nodes, id) {
                let i = raft_model::position(c.nodes, id);
                assert(0 <= i < c.nodes.len());
                assert(raft_laws::bounded(c, most, most)) by {
                    assert forall|k: int| 0 <= k < c.nodes.len() implies (
                    #[trigger] c.nodes[k]).current_term <= most && c.nodes[k].log.last_index()
                        <= most by {
                        assert(c.nodes[k].current_term + 1 <= u64::MAX);
                        assert(c.member_ok(k));
                    }
                }
                raft_laws::electing_keeps(c, i, most, most);
            }
        },
        CallV::Tick => raft_laws::ticking_takes_room(c, 1),
        CallV::Ticks { ticks } => many_ticks_never_go_back(c, ticks),
        CallV::Disconnect { .. } => {},
        CallV::Reconnect { id } => {
            if raft_model::has_member(c.nodes, id) {
                let i = raft_model::position(c.nodes, id);
                let joined = ClusterV { connected: c.connected.update(i, true), ..c };
                raft_steps::connecting_keeps(c, joined);
                raft_laws::valid_is_bounded(joined);
                raft_laws::heartbeats_keep(joined, u64::MAX, most);
                raft_laws::replicating_keeps(joined, l, i, u64::MAX, most);
                let told = joined.replicate(l, i).0;
                raft_laws::replicating_from_keeps(
                    told,
                    l,
                    0,
                    told.nodes.len() as int,
                    0,
                    u64::MAX,
                    most,
                );
            }
        },
        CallV::Snapshot => {
            assert(c.member_ok(l));
            raft_node_laws::compacting_keeps(c.nodes[l]);
        },
        CallV::Restart { .. } => {},
    }
}

proof fn many_ticks_never_go_back(c: ClusterV, ticks: nat)
    requires
        c.wf(),
        c.room(ticks as int),
    ensures
        never_back(c, c.tick_many(ticks).0),
    decreases ticks,
{
    if ticks > 0 {
        raft_laws::ticking_takes_room(c, ticks as int);
        let (d, result) = c.tick();
        if result is Ok {
            many_ticks_never_go_back(d, (ticks - 1) as nat);
            let e = c.tick_many(ticks).0;
            assert forall|i: int| 0 <= i < c.nodes.len() implies {
                &&& (#[trigger] e.nodes[i]).id == c.nodes[i].id
                &&& c.nodes[i].current_term <= e.nodes[i].current_term
                &&& c.nodes[i].commit_index <= e.nodes[i].commit_index
            } by {
                assert(d.nodes[i].id == c.nodes[i].id);
            }
        }
    }
}

/// Nor does a restart.
pub proof fn restarts_never_go_back(c: ClusterV, ids: Seq<NodeId>)
    requires
        kept(c),
        c.term_room(1),
        all_ids(c, ids),
    ensures
        never_back(c, after_call(c, CallV::Restart { ids })),
{
    files_are_theirs(c, ids);
    raft_restart::restarts_are_kept(c, ids, files(c, ids));
    let again = raft_model::built(ids, Some(files(c, ids)))->Ok_0;
    raft_restart::restarted_places(c, ids, files(c, ids), again);
    assert forall|i: int| 0 <= i < c.nodes.len() implies {
        &&& (#[trigger] again.nodes[i]).id == c.nodes[i].id
        &&& c.nodes[i].current_term <= again.nodes[i].current_term
        &&& c.nodes[i].commit_index <= again.nodes[i].commit_index
    } by {
        assert(raft_history::same_stand(c.nodes[i], again.nodes[i]));
    }
}

/// A cluster in memory that has been built and changed by nothing but calls is
/// guarded, and a tick moves its clock by one, takes no term and no commit index
/// back, and leaves it guarded.
pub proof fn ticks_are_guarded(ids: Seq<NodeId>, c: ClusterV, calls: Seq<CallV>)
    requires
        raft_model::built(ids, None) == Ok::<ClusterV, DbErrorV>(c),
        c.wf(),
        can_be_called(c, calls),
        after_calls(c, calls).room(1),
    ensures
        ({
            let d = after_calls(c, calls);
            let e = d.tick().0;
            &&& guarded(d)
            &&& guarded(e)
            &&& never_back(d, e)
            &&& e.clock_ticks == d.clock_ticks + 1
        }),
{
    let d = after_calls(c, calls);
    raft_guarantees::new_clusters_are_sound(ids, None, c);
    runs_are_sound(c, calls);
    sound_clusters_tick(d);
}

/// So is a cluster with files that was built from blank ones and changed by
/// nothing but calls and restarts from its own files.
pub proof fn durable_ticks_are_guarded(
    ids: Seq<NodeId>,
    images: Seq<WalV>,
    c: ClusterV,
    calls: Seq<CallV>,
)
    requires
        raft_guarantees::without_records(Some(images)),
        images.len() == ids.len(),
        raft_model::built(ids, Some(images)) == Ok::<ClusterV, DbErrorV>(c),
        c.wf(),
        can_be_survived(c, calls),
        after_calls(c, calls).room(1),
    ensures
        ({
            let d = after_calls(c, calls);
            let e = d.tick().0;
            &&& guarded(d)
            &&& guarded(e)
            &&& never_back(d, e)
            &&& e.clock_ticks == d.clock_ticks + 1
        }),
{
    let d = after_calls(c, calls);
    raft_persistence::new_clusters_are_kept(ids, images, c);
    runs_are_kept(c, calls);
    sound_clusters_tick(d);
}

/// A tick of a sound cluster.
proof fn sound_clusters_tick(d: ClusterV)
    requires
        sound(d),
        d.room(1),
    ensures
        guarded(d),
        guarded(d.tick().0),
        never_back(d, d.tick().0),
        d.tick().0.clock_ticks == d.clock_ticks + 1,
{
    let h = choose|h: History| #[trigger] h.explains(d, d.leader_at());
    raft_soundness::explained_place(d, h, d.leader_at());
    sound_clusters_are_guarded(d);
    calls_lead_on(d, CallV::Tick);
    sound_clusters_are_guarded(d.tick().0);
    calls_never_go_back(d, CallV::Tick);
}

/// Members restored from whatever files have committed no more than they hold,
/// and compacted no more than they have committed.
proof fn restored_members_are_bounded(ids: Seq<NodeId>, wals: Option<Seq<WalV>>, n: nat)
    ensures
        raft_model::restored_members(ids, wals, n) matches Ok((members, _)) ==> forall|k: int|
            0 <= k < members.len() ==> (#[trigger] members[k]).log.base_index
                <= members[k].commit_index <= members[k].log.last_index(),
    decreases n,
{
    if n > 0 {
        restored_members_are_bounded(ids, wals, (n - 1) as nat);
        reveal(NodeV::restored);
        reveal(wal::recovered_node);
    }
}

/// A cluster restored from whatever files has committed no more than its logs
/// hold, and compacted no more than that.
pub proof fn restored_clusters_are_bounded(ids: Seq<NodeId>, wals: Option<Seq<WalV>>, c: ClusterV)
    requires
        raft_model::built(ids, wals) == Ok::<ClusterV, DbErrorV>(c),
    ensures
        forall|i: int|
            0 <= i < c.nodes.len() ==> (#[trigger] c.nodes[i]).log.base_index
                <= c.nodes[i].commit_index <= c.nodes[i].log.last_index(),
{
    restored_members_are_bounded(ids, wals, ids.len());
    let members = raft_model::restored_members(ids, wals, ids.len())->Ok_0.0;
    let nodes = raft_model::by_id(members);
    raft_guarantees::ordering_keeps_members(members);
    assert forall|i: int| 0 <= i < c.nodes.len() implies (#[trigger] c.nodes[i]).log.base_index
        <= c.nodes[i].commit_index <= c.nodes[i].log.last_index() by {
        assert(nodes.contains(nodes[i]));
        let m = choose|m: int| 0 <= m < members.len() && members[m] == nodes[i];
        assert(c.nodes[i] == raft_model::enrolled(nodes[i], c.current_term, c.leader_id));
        assert(members[m].log.base_index <= members[m].commit_index);
    }
}

/// Whatever a cluster was restored from and has seen, a tick moves its clock by
/// one, takes no term and no commit index back, compacts nothing that is not
/// committed, and leaves at most one leader, the one that the cluster names.
pub proof fn valid_clusters_tick(c: ClusterV)
    requires
        c.wf(),
        c.room(1),
    ensures
        ({
            let d = c.tick().0;
            &&& d.wf()
            &&& d.clock_ticks == c.clock_ticks + 1
            &&& never_back(c, d)
            &&& forall|i: int|
                0 <= i < d.nodes.len() ==> {
                    &&& (#[trigger] d.nodes[i]).log.base_index <= d.nodes[i].commit_index
                    &&& d.nodes[i].role == Role::Leader ==> d.nodes[i].id == d.leader_id
                }
            &&& forall|i: int, j: int|
                0 <= i < d.nodes.len() && 0 <= j < d.nodes.len() && (#[trigger] d.nodes[i]).role
                    == Role::Leader && (#[trigger] d.nodes[j]).role == Role::Leader ==> i == j
        }),
{
    calls_never_go_back(c, CallV::Tick);
    raft_laws::ticking_takes_room(c, 1);
    let d = c.tick().0;
    assert forall|i: int| 0 <= i < d.nodes.len() implies {
        &&& (#[trigger] d.nodes[i]).log.base_index <= d.nodes[i].commit_index
        &&& d.nodes[i].role == Role::Leader ==> d.nodes[i].id == d.leader_id
    } by {
        assert(d.member_ok(i));
    }
}

} // verus!
