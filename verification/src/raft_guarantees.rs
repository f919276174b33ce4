//! What every cluster guarantees that public calls have led to.
use vstd::prelude::*;

use crate::memlog::MemLogV;
use crate::raft_durability;
use crate::raft_health;
use crate::raft_history;
use crate::raft_history::{agree, stands_for, term_of};
use crate::raft_laws;
use crate::raft_model;
use crate::raft_model::ClusterV;
use crate::raft_node::{NodeV, Role};
use crate::raft_safety;
use crate::raft_soundness;
use crate::raft_soundness::{sound, tally, terms_ascend, History};
use crate::raft_steps;
use crate::state_machine;
use crate::state_machine::KvMap;
use crate::types::{CommandV, DbErrorV, Index, LogEntryV, NodeId};
use crate::wal::WalV;

verus! {

/// Whatever stands behind the first cluster, something stands behind the second
/// that leaves what was committed as it was.
pub open spec fn leads_to(before: ClusterV, after: ClusterV) -> bool {
    forall|h: History| #[trigger]
        h.explains(before, before.leader_at()) ==> exists|g: History| #[trigger]
            g.explains(after, after.leader_at()) && raft_steps::succeeds(
                h,
                before.leader_at(),
                g,
                after.leader_at(),
            )
}

/// What a sound cluster leads to is sound.
pub proof fn leading_stays_sound(before: ClusterV, after: ClusterV)
    requires
        sound(before),
        leads_to(before, after),
    ensures
        sound(after),
{
    let h = choose|h: History| #[trigger] h.explains(before, before.leader_at());
    let g = choose|g: History| #[trigger]
        g.explains(after, after.leader_at()) && raft_steps::succeeds(
            h,
            before.leader_at(),
            g,
            after.leader_at(),
        );
    assert(g.explains(after, after.leader_at()));
}

/// Calls one after the other lead on.
pub proof fn leading_twice(a: ClusterV, b: ClusterV, c: ClusterV)
    requires
        leads_to(a, b),
        leads_to(b, c),
    ensures
        leads_to(a, c),
{
    assert forall|h: History| #[trigger] h.explains(a, a.leader_at()) implies exists|g: History|
        #[trigger]
        g.explains(c, c.leader_at()) && raft_steps::succeeds(
            h,
            a.leader_at(),
            g,
            c.leader_at(),
        ) by {
        let f = choose|f: History| #[trigger]
            f.explains(b, b.leader_at()) && raft_steps::succeeds(
                h,
                a.leader_at(),
                f,
                b.leader_at(),
            );
        let g = choose|g: History| #[trigger]
            g.explains(c, c.leader_at()) && raft_steps::succeeds(
                f,
                b.leader_at(),
                g,
                c.leader_at(),
            );
        raft_steps::succeeding_twice(h, a.leader_at(), f, b.leader_at(), g, c.leader_at());
        assert(g.explains(c, c.leader_at()));
    }
}

/// A cluster leads to itself.
pub proof fn leading_nowhere(c: ClusterV)
    ensures
        leads_to(c, c),
{
    assert forall|h: History| #[trigger] h.explains(c, c.leader_at()) implies exists|g: History|
        #[trigger]
        g.explains(c, c.leader_at()) && raft_steps::succeeds(
            h,
            c.leader_at(),
            g,
            c.leader_at(),
        ) by {
        raft_steps::standing_still(c, h, c.leader_at());
    }
}

/// A proposal leads on.
pub proof fn proposals_lead_on(c: ClusterV, command: CommandV)
    requires
        c.log_room(1),
    ensures
        leads_to(c, c.propose(command).0),
        sound(c) ==> sound(c.propose(command).0),
{
    let d = c.propose(command).0;
    let l = c.leader_at();
    assert forall|h: History| #[trigger] h.explains(c, l) implies exists|g: History| #[trigger]
        g.explains(d, d.leader_at()) && raft_steps::succeeds(h, l, g, d.leader_at()) by {
        let g = raft_steps::proposing_is_explained(c, h, l, command);
        raft_soundness::explained_place(d, g, l);
        assert(g.explains(d, d.leader_at()));
    }
    if sound(c) {
        leading_stays_sound(c, d);
    }
}

/// A round of heartbeats leads on.
pub proof fn heartbeats_lead_on(c: ClusterV)
    ensures
        leads_to(c, c.heartbeat_round().0),
        sound(c) ==> sound(c.heartbeat_round().0),
{
    let d = c.heartbeat_round().0;
    let l = c.leader_at();
    assert forall|h: History| #[trigger] h.explains(c, l) implies exists|g: History| #[trigger]
        g.explains(d, d.leader_at()) && raft_steps::succeeds(h, l, g, d.leader_at()) by {
        raft_steps::standing_still(c, h, l);
        let g = raft_steps::heartbeats_are_explained(c, h, l);
        raft_soundness::explained_place(d, g, l);
        assert(g.explains(d, d.leader_at()));
    }
    if sound(c) {
        leading_stays_sound(c, d);
    }
}

/// An election leads on.
pub proof fn elections_lead_on(c: ClusterV, id: NodeId)
    requires
        c.term_room(1),
    ensures
        leads_to(c, c.start_election(id).0),
        sound(c) ==> sound(c.start_election(id).0),
{
    let d = c.start_election(id).0;
    let l = c.leader_at();
    if raft_model::has_member(c.nodes, id) {
        let i = raft_model::position(c.nodes, id);
        assert forall|h: History| #[trigger] h.explains(c, l) implies exists|g: History| #[trigger]
            g.explains(d, d.leader_at()) && raft_steps::succeeds(h, l, g, d.leader_at()) by {
            let g = raft_steps::electing_is_explained(c, h, l, i);
            assert(g.explains(d, d.leader_at()));
        }
    } else {
        leading_nowhere(c);
    }
    if sound(c) {
        leading_stays_sound(c, d);
    }
}

/// A tick leads on.
pub proof fn ticks_lead_on(c: ClusterV)
    requires
        c.room(1),
    ensures
        leads_to(c, c.tick().0),
        sound(c) ==> sound(c.tick().0),
{
    let d = c.tick().0;
    let l = c.leader_at();
    assert forall|h: History| #[trigger] h.explains(c, l) implies exists|g: History| #[trigger]
        g.explains(d, d.leader_at()) && raft_steps::succeeds(h, l, g, d.leader_at()) by {
        let g = raft_steps::ticking_is_explained(c, h, l);
        assert(g.explains(d, d.leader_at()));
    }
    if sound(c) {
        leading_stays_sound(c, d);
    }
}

/// Many ticks lead on.
pub proof fn many_ticks_lead_on(c: ClusterV, ticks: nat)
    requires
        c.wf(),
        c.room(ticks as int),
    ensures
        leads_to(c, c.tick_many(ticks).0),
        sound(c) ==> sound(c.tick_many(ticks).0),
    decreases ticks,
{
    if ticks == 0 {
        leading_nowhere(c);
    } else {
        assert(c.room(1));
        ticks_lead_on(c);
        raft_laws::ticking_takes_room(c, ticks as int);
        let (d, result) = c.tick();
        if result is Ok {
            many_ticks_lead_on(d, (ticks - 1) as nat);
            leading_twice(c, d, d.tick_many((ticks - 1) as nat).0);
        }
    }
    if sound(c) {
        leading_stays_sound(c, c.tick_many(ticks).0);
    }
}

/// Disconnecting a member leads on.
pub proof fn disconnecting_leads_on(c: ClusterV, id: NodeId)
    ensures
        leads_to(c, c.disconnect(id).0),
        sound(c) ==> sound(c.disconnect(id).0),
{
    let d = c.disconnect(id).0;
    let l = c.leader_at();
    assert forall|h: History| #[trigger] h.explains(c, l) implies exists|g: History| #[trigger]
        g.explains(d, d.leader_at()) && raft_steps::succeeds(h, l, g, d.leader_at()) by {
        raft_steps::standing_still(c, h, l);
        raft_steps::disconnecting_is_explained(c, h, l, id);
        raft_soundness::explained_place(d, h, l);
        assert(h.explains(d, d.leader_at()));
    }
    if sound(c) {
        leading_stays_sound(c, d);
    }
}

/// Reconnecting a member leads on.
pub proof fn reconnecting_leads_on(c: ClusterV, id: NodeId)
    ensures
        leads_to(c, c.reconnect(id).0),
        sound(c) ==> sound(c.reconnect(id).0),
{
    let d = c.reconnect(id).0;
    let l = c.leader_at();
    assert forall|h: History| #[trigger] h.explains(c, l) implies exists|g: History| #[trigger]
        g.explains(d, d.leader_at()) && raft_steps::succeeds(h, l, g, d.leader_at()) by {
        let g = raft_steps::reconnecting_is_explained(c, h, l, id);
        raft_soundness::explained_place(d, g, l);
        assert(g.explains(d, d.leader_at()));
    }
    if sound(c) {
        leading_stays_sound(c, d);
    }
}

/// A snapshot of the leader leads on.
pub proof fn snapshots_lead_on(c: ClusterV)
    ensures
        leads_to(c, c.create_leader_snapshot().0),
        sound(c) ==> sound(c.create_leader_snapshot().0),
{
    let d = c.create_leader_snapshot().0;
    let l = c.leader_at();
    assert forall|h: History| #[trigger] h.explains(c, l) implies exists|g: History| #[trigger]
        g.explains(d, d.leader_at()) && raft_steps::succeeds(h, l, g, d.leader_at()) by {
        raft_steps::standing_still(c, h, l);
        raft_steps::compacting_is_explained(c, h, l);
        raft_soundness::explained_place(d, h, l);
        assert(h.explains(d, d.leader_at()));
    }
    if sound(c) {
        leading_stays_sound(c, d);
    }
}

/// A member that has nothing yet, in the first term.
pub open spec fn is_blank(node: NodeV) -> bool {
    &&& node.log == MemLogV::empty()
    &&& node.commit_index == 0
    &&& node.last_applied == 0
    &&& node.state == KvMap::empty()
    &&& node.snapshot is None
    &&& node.current_term == 1
}

/// No files, or files that hold nothing.
pub open spec fn without_records(wals: Option<Seq<WalV>>) -> bool {
    wals matches Some(images) ==> forall|k: int|
        0 <= k < images.len() ==> #[trigger] images[k] == WalV::blank(images[k].path)
}

proof fn members_start_blank(ids: Seq<NodeId>, wals: Option<Seq<WalV>>, k: nat)
    requires
        without_records(wals),
        k <= ids.len(),
        wals matches Some(images) ==> images.len() == ids.len(),
    ensures
        raft_model::restored_members(ids, wals, k) matches Ok((members, term)) && term == 1
            && members.len() == k && forall|i: int|
            0 <= i < members.len() ==> is_blank(#[trigger] members[i]) && (wals is Some
                ==> raft_durability::durable(members[i])),
    decreases k,
{
    if k > 0 {
        members_start_blank(ids, wals, (k - 1) as nat);
        if let Some(images) = wals {
            let path = images[k - 1].path;
            assert(images[k - 1] == WalV::blank(path));
            raft_durability::blank_start_is_durable(ids[k - 1], Role::Follower, 1, path);
        }
    }
}

/// Putting members in order loses none and adds none.
pub proof fn ordering_keeps_members(members: Seq<NodeV>)
    ensures
        raft_model::by_id(members).len() == members.len(),
        forall|node: NodeV| #[trigger]
            raft_model::by_id(members).contains(node) <==> members.contains(node),
    decreases members.len(),
{
    let all = raft_model::by_id(members);
    if members.len() > 0 {
        let before = members.drop_last();
        ordering_keeps_members(before);
        let rest = raft_model::by_id(before);
        let last = members.last();
        let p = raft_model::place_for(rest, last.id, 0);
        raft_health::place_for_is_a_place(rest, last.id, 0);
        assert forall|node: NodeV| #[trigger] all.contains(node) <==> members.contains(node) by {
            if all.contains(node) {
                let i = choose|i: int| 0 <= i < all.len() && all[i] == node;
                if i < p {
                    assert(rest[i] == node);
                    assert(rest.contains(node));
                } else if i > p {
                    assert(rest[i - 1] == node);
                    assert(rest.contains(node));
                }
                if rest.contains(node) {
                    assert(before.contains(node));
                    let j = choose|j: int| 0 <= j < before.len() && before[j] == node;
                    assert(members[j] == node);
                } else {
                    assert(members[members.len() - 1] == node);
                }
            }
            if members.contains(node) {
                let j = choose|j: int| 0 <= j < members.len() && members[j] == node;
                if j < before.len() {
                    assert(before[j] == node);
                    assert(rest.contains(node));
                    let i = choose|i: int| 0 <= i < rest.len() && rest[i] == node;
                    if i < p {
                        assert(all[i] == node);
                    } else {
                        assert(all[i + 1] == node);
                    }
                } else {
                    assert(all[p] == node);
                }
            }
        }
    }
}

/// A new cluster is sound, whether its members keep files or not.
pub proof fn new_clusters_are_sound(ids: Seq<NodeId>, wals: Option<Seq<WalV>>, c: ClusterV)
    requires
        without_records(wals),
        wals matches Some(images) ==> images.len() == ids.len(),
        raft_model::built(ids, wals) == Ok::<ClusterV, DbErrorV>(c),
        c.wf(),
    ensures
        sound(c),
{
    let h = new_clusters_are_explained(ids, wals, c);
    assert(h.explains(c, c.leader_at()));
}

/// Behind a new cluster stands a history without entries; and its members' files,
/// where they keep any, stand for them.
pub proof fn new_clusters_are_explained(
    ids: Seq<NodeId>,
    wals: Option<Seq<WalV>>,
    c: ClusterV,
) -> (h: History)
    requires
        without_records(wals),
        wals matches Some(images) ==> images.len() == ids.len(),
        raft_model::built(ids, wals) == Ok::<ClusterV, DbErrorV>(c),
        c.wf(),
    ensures
        h.explains(c, c.leader_at()),
        forall|i: int| 0 <= i < h.logs.len() ==> (#[trigger] h.logs[i]).len() == 0,
        forall|i: int|
            0 <= i < c.nodes.len() ==> is_blank(#[trigger] c.nodes[i]) && (wals is Some
                ==> raft_durability::durable(c.nodes[i])),
{
    members_start_blank(ids, wals, ids.len());
    let members = raft_model::restored_members(ids, wals, ids.len())->Ok_0.0;
    ordering_keeps_members(members);
    let nodes = raft_model::by_id(members);
    raft_laws::leader_has_place(c);
    let l = c.leader_at();
    let nothing = Seq::<LogEntryV>::empty();
    let h = History { logs: Seq::new(c.nodes.len(), |i: int| nothing), anchor: 0, reign: 1 };
    assert forall|i: int| 0 <= i < nodes.len() implies is_blank(#[trigger] nodes[i]) by {
        assert(nodes.contains(nodes[i]));
        let j = choose|j: int| 0 <= j < members.len() && members[j] == nodes[i];
        assert(is_blank(members[j]));
    }
    let at = raft_model::position(nodes, c.leader_id);
    assert(c.current_term == 1) by {
        let last = nodes[at].log.last_index();
        assert forall|i: int| 0 <= i < nodes.len() implies (#[trigger] nodes[i]).log.last_index()
            <= last by {
            assert(is_blank(nodes[i]));
        }
        raft_model::short_logs_resume(nodes, 1, last);
    }
    assert(nodes[l].id == c.leader_id) by {
        assert(c.nodes[l] == raft_model::enrolled(nodes[l], 1, c.leader_id));
    }
    assert(0 <= at < nodes.len());
    assert(is_blank(nodes[at]));
    assert forall|i: int| 0 <= i < c.nodes.len() implies {
        &&& stands_for(#[trigger] c.nodes[i], h.logs[i])
        &&& terms_ascend(h.logs[i], h.reign)
        &&& h.reign <= c.nodes[i].current_term
    } by {
        assert(c.member_ok(i));
        assert(is_blank(nodes[i]));
        assert(c.nodes[i] == raft_model::enrolled(nodes[i], 1, c.leader_id));
        assert(nothing.skip(0) =~= nothing);
        assert(nothing.take(0) =~= nothing);
    }
    assert(h.explains(c, l)) by {
        reveal(History::explains);
        let marks = h.holders(l, 0);
        assert forall|i: int| 0 <= i < marks.len() implies #[trigger] marks[i] by {}
        raft_soundness::all_marks(marks);
        assert forall|i: int| 0 <= i < c.nodes.len() implies #[trigger] h.tracks(c, l, i) by {
            assert(is_blank(nodes[i]));
            assert(c.nodes[i] == raft_model::enrolled(nodes[i], 1, c.leader_id));
        }
        assert forall|i: int| 0 <= i < c.nodes.len() implies agree(
            h.logs[i],
            h.logs[l],
            (#[trigger] c.nodes[i]).commit_index as int,
        ) && c.nodes[i].commit_index <= h.anchor by {
            assert(is_blank(nodes[i]));
            assert(c.nodes[i] == raft_model::enrolled(nodes[i], 1, c.leader_id));
        }
        assert(c.nodes[l] == raft_model::enrolled(nodes[l], 1, c.leader_id));
        assert(is_blank(nodes[l]));
    }
    assert forall|i: int| 0 <= i < c.nodes.len() implies is_blank(#[trigger] c.nodes[i]) && (
    wals is Some ==> raft_durability::durable(c.nodes[i])) by {
        assert(nodes.contains(nodes[i]));
        let j = choose|j: int| 0 <= j < members.len() && members[j] == nodes[i];
        assert(is_blank(members[j]));
        assert(c.nodes[i] == raft_model::enrolled(nodes[i], 1, c.leader_id));
        assert(c.member_ok(i));
    }
    h
}

/// The node holds the entry, in its log or behind its snapshot.
pub open spec fn holds_entry(node: NodeV, entry: LogEntryV) -> bool {
    entry.index <= node.log.base_index || node.log.get(entry.index) == Some(entry)
}

/// Who holds the entry.
pub open spec fn entry_holders(c: ClusterV, entry: LogEntryV) -> Seq<bool> {
    Seq::new(c.nodes.len(), |k: int| holds_entry(c.nodes[k], entry))
}

/// A node holds the entries of the whole log that it stands for.
proof fn standing_nodes_hold(node: NodeV, whole: Seq<LogEntryV>, index: Index)
    requires
        stands_for(node, whole),
        1 <= index <= whole.len(),
    ensures
        whole[index - 1].index == index,
        holds_entry(node, whole[index - 1]),
{
    raft_history::rest_shows(node.log, whole);
    assert(whole[index - 1].index == 1 + (index - 1));
}

/// Whoever agrees on an index holds the entry there.
proof fn agreeing_members_hold(c: ClusterV, h: History, l: int, p: int, index: Index)
    requires
        h.explains(c, l),
        1 <= index <= p <= h.logs[l].len(),
        tally(h.holders(l, p)) >= c.quorum(),
    ensures
        tally(entry_holders(c, h.logs[l][index - 1])) >= c.quorum(),
{
    raft_soundness::explained_place(c, h, l);
    let entry = h.logs[l][index - 1];
    let marks = h.holders(l, p);
    let holders = entry_holders(c, entry);
    assert forall|k: int| 0 <= k < marks.len() && marks[k] implies #[trigger] holders[k] by {
        raft_soundness::explained_member(c, h, l, k);
        raft_history::agreeing_reaches_back(h.logs[k], h.logs[l], p, index as int);
        assert(h.logs[k].take(index as int)[index - 1] == h.logs[l].take(index as int)[index - 1]);
        standing_nodes_hold(c.nodes[k], h.logs[k], index);
    }
    raft_soundness::more_marks(marks, holders);
}

/// The committed entry at an index, in the history behind a cluster.
pub proof fn committed_entry_of(c: ClusterV, h: History, l: int, i: int, index: Index) -> (entry:
    LogEntryV)
    requires
        h.explains(c, l),
        0 <= i < c.nodes.len(),
        1 <= index <= c.nodes[i].commit_index,
    ensures
        index <= h.anchor,
        entry == h.logs[l][index - 1],
        entry.index == index,
        tally(entry_holders(c, entry)) >= c.quorum(),
        holds_entry(c.nodes[l], entry),
        forall|k: int|
            0 <= k < c.nodes.len() && index <= (#[trigger] c.nodes[k]).commit_index ==> holds_entry(
                c.nodes[k],
                entry,
            ),
{
    raft_soundness::explained_member(c, h, l, i);
    let entry = h.logs[l][index - 1];
    assert(tally(h.holders(l, h.anchor)) >= c.quorum()) by {
        reveal(History::explains);
    }
    agreeing_members_hold(c, h, l, h.anchor, index);
    standing_nodes_hold(c.nodes[l], h.logs[l], index);
    assert forall|k: int|
        0 <= k < c.nodes.len() && index <= (#[trigger] c.nodes[k]).commit_index implies holds_entry(
        c.nodes[k],
        entry,
    ) by {
        raft_soundness::explained_member(c, h, l, k);
        let commit = c.nodes[k].commit_index as int;
        raft_history::agreeing_reaches_back(h.logs[k], h.logs[l], commit, index as int);
        assert(h.logs[k].take(index as int)[index - 1] == h.logs[l].take(index as int)[index - 1]);
        standing_nodes_hold(c.nodes[k], h.logs[k], index);
    }
    entry
}

/// What anybody has committed a quorum holds, and the leader among them: for
/// every committed index there is one entry, and it is the one in the log of
/// every member that has committed it.
pub proof fn committed_entries_have_a_quorum(c: ClusterV, i: int, index: Index) -> (entry: LogEntryV)
    requires
        sound(c),
        0 <= i < c.nodes.len(),
        1 <= index <= c.nodes[i].commit_index,
    ensures
        entry.index == index,
        tally(entry_holders(c, entry)) >= c.quorum(),
        holds_entry(c.nodes[c.leader_at()], entry),
        forall|k: int|
            0 <= k < c.nodes.len() && index <= (#[trigger] c.nodes[k]).commit_index ==> holds_entry(
                c.nodes[k],
                entry,
            ),
{
    let l = c.leader_at();
    let h = choose|h: History| #[trigger] h.explains(c, l);
    committed_entry_of(c, h, l, i, index)
}

/// The leader commits an entry only where a quorum holds it, and where it has
/// written it in its own term.
pub proof fn commits_need_a_quorum(c: ClusterV)
    requires
        sound(c),
        c.nodes[c.leader_at()].role == Role::Leader,
        c.advance_commit(c.leader_at()).nodes[c.leader_at()].commit_index
            > c.nodes[c.leader_at()].commit_index,
    ensures
        ({
            let leader = c.nodes[c.leader_at()];
            let index = c.advance_commit(c.leader_at()).nodes[c.leader_at()].commit_index;
            &&& leader.log.get(index) matches Some(entry)
            &&& entry.term == leader.current_term
            &&& tally(entry_holders(c, entry)) >= c.quorum()
        }),
{
    let l = c.leader_at();
    let leader = c.nodes[l];
    let h = choose|h: History| #[trigger] h.explains(c, l);
    raft_soundness::explained_place(c, h, l);
    raft_soundness::explained_member(c, h, l, l);
    let g = h.logs[l];
    raft_history::rest_shows(leader.log, g);
    raft_laws::commit_point_is_greatest(c, l, leader.log.last_index());
    let index = c.advance_commit(l).nodes[l].commit_index;
    assert(leader.log.get(index) == Some(g[index - 1]));
    let h2 = raft_steps::advancing_is_explained(c, h, l);
    let d = c.advance_commit(l);
    raft_soundness::explained_member(d, h2, l, l);
    assert(tally(h2.holders(l, h2.anchor)) >= c.quorum()) by {
        reveal(History::explains);
    }
    assert(h2.holders(l, h2.anchor) =~= h.holders(l, h2.anchor));
    agreeing_members_hold(c, h, l, h2.anchor, index);
}

/// What every member has committed lies between its snapshot and the end of its
/// log.
pub proof fn commits_lie_in_the_log(c: ClusterV, i: int)
    requires
        sound(c),
        0 <= i < c.nodes.len(),
    ensures
        c.nodes[i].log.base_index <= c.nodes[i].commit_index <= c.nodes[i].log.last_index(),
        c.nodes[i].commit_index <= c.nodes[c.leader_at()].log.last_index(),
        c.match_index[i] <= c.nodes[c.leader_at()].log.last_index(),
        c.nodes[i].last_applied == c.nodes[i].commit_index,
{
    let l = c.leader_at();
    let h = choose|h: History| #[trigger] h.explains(c, l);
    raft_soundness::explained_member(c, h, l, i);
    raft_history::rest_shows(c.nodes[i].log, h.logs[i]);
    raft_history::rest_shows(c.nodes[l].log, h.logs[l]);
}

/// Members that have committed as much are in the same state.
pub proof fn equal_commits_equal_states(c: ClusterV, i: int, j: int)
    requires
        sound(c),
        0 <= i < c.nodes.len(),
        0 <= j < c.nodes.len(),
        c.nodes[i].commit_index == c.nodes[j].commit_index,
    ensures
        c.nodes[i].state == c.nodes[j].state,
{
    let l = c.leader_at();
    let h = choose|h: History| #[trigger] h.explains(c, l);
    raft_soundness::explained_member(c, h, l, i);
    raft_soundness::explained_member(c, h, l, j);
}

/// A member's state is what all entries build that it has committed, and each
/// of these is the one that every member holds that has committed it.
pub proof fn states_are_what_was_committed(c: ClusterV, i: int) -> (entries: Seq<LogEntryV>)
    requires
        sound(c),
        0 <= i < c.nodes.len(),
    ensures
        entries.len() == c.nodes[i].commit_index,
        c.nodes[i].state == crate::state_machine::replayed(KvMap::empty(), entries),
        forall|n: int|
            0 <= n < entries.len() ==> (#[trigger] entries[n]).index == n + 1 && holds_entry(
                c.nodes[i],
                entries[n],
            ),
{
    let l = c.leader_at();
    let h = choose|h: History| #[trigger] h.explains(c, l);
    raft_soundness::explained_member(c, h, l, i);
    let entries = h.logs[i].take(c.nodes[i].commit_index as int);
    assert forall|n: int| 0 <= n < entries.len() implies (#[trigger] entries[n]).index == n + 1
        && holds_entry(c.nodes[i], entries[n]) by {
        standing_nodes_hold(c.nodes[i], h.logs[i], (n + 1) as u64);
    }
    entries
}

/// Logs that match: where two of them have the same term at an index, they have
/// the same entries through it, as far as neither is compacted.
pub open spec fn logs_match(a: MemLogV, b: MemLogV) -> bool {
    &&& a.base_index == b.base_index ==> a.base_term == b.base_term
    &&& forall|index: Index, earlier: Index|
        #![trigger a.term_at(index), b.get(earlier)]
        a.term_at(index) is Some && a.term_at(index) == b.term_at(index) && earlier <= index
            && a.get(earlier) is Some && b.get(earlier) is Some ==> a.get(earlier) == b.get(
            earlier,
        )
}

/// The logs of all members match.
pub proof fn all_logs_match(c: ClusterV, i: int, j: int)
    requires
        sound(c),
        0 <= i < c.nodes.len(),
        0 <= j < c.nodes.len(),
    ensures
        logs_match(c.nodes[i].log, c.nodes[j].log),
{
    let l = c.leader_at();
    let h = choose|h: History| #[trigger] h.explains(c, l);
    raft_soundness::explained_member(c, h, l, i);
    raft_soundness::explained_member(c, h, l, j);
    let f = h.logs[i];
    let g = h.logs[j];
    assert(raft_history::match_up(f, g)) by {
        reveal(History::explains);
        assert(raft_history::match_up(h.logs[i], h.logs[j]));
    }
    let a = c.nodes[i].log;
    let b = c.nodes[j].log;
    raft_history::rest_shows(a, f);
    raft_history::rest_shows(b, g);
    let commit_a = c.nodes[i].commit_index as int;
    let commit_b = c.nodes[j].commit_index as int;
    if a.base_index == b.base_index {
        let base = a.base_index as int;
        raft_history::agreeing_reaches_back(f, h.logs[l], commit_a, base);
        raft_history::agreeing_reaches_back(g, h.logs[l], commit_b, base);
    }
    assert forall|index: Index, earlier: Index|
        #![trigger a.term_at(index), b.get(earlier)]
        a.term_at(index) is Some && a.term_at(index) == b.term_at(index) && earlier <= index
            && a.get(earlier) is Some && b.get(earlier) is Some implies a.get(earlier) == b.get(
        earlier,
    ) by {
        assert(term_of(f, index as int) == term_of(g, index as int));
        assert(agree(f, g, index as int));
        assert(f.take(index as int)[earlier - 1] == g.take(index as int)[earlier - 1]);
        assert(a.get(earlier) == Some(f[earlier - 1]));
        assert(b.get(earlier) == Some(g[earlier - 1]));
    }
}

/// What is committed stays: whatever calls follow, an entry that anybody has
/// committed is the one that everybody holds who has committed its index, now or
/// later, and the leader holds it; and whoever has committed as much is in the
/// same state.
pub proof fn committed_entries_stay(
    before: ClusterV,
    after: ClusterV,
    i: int,
    j: int,
    index: Index,
)
    requires
        sound(before),
        leads_to(before, after),
        0 <= i < before.nodes.len(),
        0 <= j < after.nodes.len(),
        1 <= index <= before.nodes[i].commit_index,
    ensures
        before.nodes[i].log.get(index) matches Some(entry) ==> {
            &&& holds_entry(after.nodes[after.leader_at()], entry)
            &&& index <= after.nodes[j].commit_index ==> holds_entry(after.nodes[j], entry)
        },
        before.nodes[i].commit_index == after.nodes[j].commit_index ==> before.nodes[i].state
            == after.nodes[j].state,
{
    let l = before.leader_at();
    let m = after.leader_at();
    let h = choose|h: History| #[trigger] h.explains(before, l);
    let g = choose|g: History| #[trigger]
        g.explains(after, m) && raft_steps::succeeds(h, l, g, m);
    raft_soundness::explained_member(before, h, l, i);
    raft_soundness::explained_member(after, g, m, j);
    let commit = before.nodes[i].commit_index as int;
    raft_history::rest_shows(before.nodes[i].log, h.logs[i]);
    raft_history::agreeing_reaches_back(h.logs[l], g.logs[m], h.anchor, commit);
    raft_history::agreeing_reaches_back(h.logs[i], g.logs[m], commit, index as int);
    let entry = h.logs[i][index - 1];
    assert(h.logs[i].take(index as int)[index - 1] == g.logs[m].take(index as int)[index - 1]);
    standing_nodes_hold(after.nodes[m], g.logs[m], index);
    let other = after.nodes[j].commit_index as int;
    if index <= other {
        raft_history::agreeing_reaches_back(g.logs[j], g.logs[m], other, index as int);
        assert(g.logs[j].take(index as int)[index - 1] == g.logs[m].take(index as int)[index - 1]);
        standing_nodes_hold(after.nodes[j], g.logs[j], index);
    }
}

/// What a member has committed last is read in its state.
pub proof fn last_commits_are_read(c: ClusterV, i: int, entry: LogEntryV)
    requires
        sound(c),
        0 <= i < c.nodes.len(),
        c.nodes[i].log.get(entry.index) == Some(entry),
        c.nodes[i].commit_index == entry.index,
    ensures
        c.nodes[i].state.contains_key(state_machine::key_of(entry.command))
            <==> entry.command is Put,
        entry.command matches CommandV::Put { key, value } ==> c.nodes[i].state[key] == value,
{
    let l = c.leader_at();
    let h = choose|h: History| #[trigger] h.explains(c, l);
    raft_soundness::explained_member(c, h, l, i);
    let whole = h.logs[i];
    raft_history::rest_shows(c.nodes[i].log, whole);
    let committed = whole.take(entry.index as int);
    assert(whole[entry.index - 1] == entry);
    assert(committed.last() == entry);
}

/// A log holds all entries of another that it has not compacted.
pub open spec fn holds_all(node: NodeV, other: MemLogV) -> bool {
    forall|index: Index|
        (#[trigger] other.get(index)) is Some ==> holds_entry(node, other.get(index)->0)
}

/// A member holds its own log.
pub proof fn holds_own_log(c: ClusterV, i: int)
    requires
        sound(c),
        0 <= i < c.nodes.len(),
    ensures
        holds_all(c.nodes[i], c.nodes[i].log),
{
    let l = c.leader_at();
    let h = choose|h: History| #[trigger] h.explains(c, l);
    raft_soundness::explained_member(c, h, l, i);
    let log = c.nodes[i].log;
    raft_history::rest_shows(log, h.logs[i]);
    assert forall|index: Index| (#[trigger] log.get(index)) is Some implies holds_entry(
        c.nodes[i],
        log.get(index)->0,
    ) by {
        assert(log.get(index) == Some(h.logs[i][index - 1]));
    }
}

/// A connected member that is not in a later term catches up with its leader,
/// whatever its log held: what the leader's log contradicts is replaced, what is
/// missing is added, from the leader's snapshot where the log does not reach
/// back so far, and what the leader has committed is committed. Only the
/// member's disk can prevent it.
pub proof fn connected_members_catch_up(c: ClusterV, i: int)
    requires
        sound(c),
        0 <= i < c.nodes.len(),
        i != c.leader_at(),
        c.available(c.leader_at()),
        c.connected[i],
        c.nodes[i].current_term <= c.nodes[c.leader_at()].current_term,
    ensures
        ({
            let (after, result) = c.replicate(c.leader_at(), i);
            let leader = c.nodes[c.leader_at()];
            &&& result is Err ==> c.nodes[i].wal is Some
            &&& result matches Ok(taken) ==> taken && holds_all(after.nodes[i], leader.log)
                && after.nodes[i].commit_index >= leader.commit_index
        }),
{
    reveal(ClusterV::replicate);
    let l = c.leader_at();
    let h = choose|h: History| #[trigger] h.explains(c, l);
    raft_soundness::explained_member(c, h, l, i);
    let g = raft_soundness::catching_up_is_explained(c, h, l, i, false);
    let (after, result) = c.replicate(l, i);
    raft_soundness::explained_place(after, g, l);
    raft_soundness::explained_member(after, g, l, i);
    let whole = g.logs[l];
    let leader = c.nodes[l];
    raft_history::rest_shows(leader.log, whole);
    if result is Ok {
        assert forall|index: Index| (#[trigger] leader.log.get(index)) is Some implies holds_entry(
            after.nodes[i],
            leader.log.get(index)->0,
        ) by {
            assert(leader.log.get(index) == Some(whole[index - 1]));
            raft_history::agreeing_reaches_back(
                g.logs[i],
                whole,
                whole.len() as int,
                index as int,
            );
            assert(g.logs[i].take(index as int)[index - 1] == whole.take(index as int)[index - 1]);
            standing_nodes_hold(after.nodes[i], g.logs[i], index);
        }
    }
}

/// A leader on the side of a minority commits nothing that it is asked: a
/// proposal is taken into its log, but nobody commits it.
pub proof fn minorities_commit_nothing(c: ClusterV, command: CommandV)
    requires
        sound(c),
        c.log_room(1),
        raft_safety::side_of(c, c.leader_at(), c.nodes.len() as int) < c.quorum(),
    ensures
        ({
            let (after, result) = c.propose(command);
            let last = c.nodes[c.leader_at()].log.last_index();
            &&& forall|k: int|
                0 <= k < c.nodes.len() ==> (#[trigger] after.nodes[k]).commit_index <= last
            &&& result matches Ok(outcome) ==> outcome.committed_nodes == 0
        }),
{
    let l = c.leader_at();
    let h = choose|h: History| #[trigger] h.explains(c, l);
    raft_soundness::explained_place(c, h, l);
    let last = c.nodes[l].log.last_index();
    assert forall|k: int| 0 <= k < c.nodes.len() implies #[trigger] c.match_index[k] <= last by {
        commits_lie_in_the_log(c, k);
    }
    assert forall|k: int| 0 <= k < c.nodes.len() implies (#[trigger] c.nodes[k]).commit_index
        <= last by {
        commits_lie_in_the_log(c, k);
    }
    raft_safety::minorities_commit_no_proposal(c, command);
}

} // verus!
