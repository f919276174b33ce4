//! What everybody knows of an entry that was acknowledged: whoever holds it has
//! committed it, and so has every leader to come.
use vstd::prelude::*;

use crate::memlog;
use crate::raft_guarantees;
use crate::raft_guarantees::leads_to;
use crate::raft_history;
use crate::raft_history::agree;
use crate::raft_laws;
use crate::raft_model;
use crate::raft_model::ClusterV;
use crate::raft_node::{NodeV, Role};
use crate::raft_node_laws;
use crate::raft_progress;
use crate::raft_soundness;
use crate::raft_soundness::{all_rest, rests, sound, History};
use crate::raft_steps;
use crate::raft_steps::succeeds;
use crate::snapshot_codec::SnapshotDataV;
use crate::state_machine;
use crate::state_machine::KvMap;
use crate::types::{CommandV, Index, LogEntryV, NodeId, Term};

verus! {

/// If the node holds the entry, it has committed it.
pub open spec fn knows(node: NodeV, entry: LogEntryV) -> bool {
    node.log.get(entry.index) == Some(entry) ==> node.commit_index >= entry.index
}

/// Whoever holds the entry has committed it.
pub open spec fn all_know(c: ClusterV, entry: LogEntryV) -> bool {
    forall|i: int| 0 <= i < c.nodes.len() ==> knows(#[trigger] c.nodes[i], entry)
}

/// The entry is committed for good in a history, and whoever holds it knows.
pub open spec fn settles(c: ClusterV, h: History, l: int, entry: LogEntryV) -> bool {
    &&& h.explains(c, l)
    &&& 1 <= entry.index <= h.anchor
    &&& h.logs[l][entry.index - 1] == entry
    &&& all_know(c, entry)
}

/// The entry is committed for good, and whoever holds it knows.
pub open spec fn settled(c: ClusterV, entry: LogEntryV) -> bool {
    exists|h: History| #[trigger] settles(c, h, c.leader_at(), entry)
}

/// A member whose log reaches through what is anchored has committed a settled
/// entry.
proof fn holders_have_committed(c: ClusterV, h: History, l: int, i: int, entry: LogEntryV)
    requires
        settles(c, h, l, entry),
        0 <= i < c.nodes.len(),
        agree(h.logs[i], h.logs[l], h.anchor),
    ensures
        c.nodes[i].commit_index >= entry.index,
{
    raft_soundness::explained_place(c, h, l);
    raft_soundness::explained_member(c, h, l, i);
    let node = c.nodes[i];
    raft_history::rest_shows(node.log, h.logs[i]);
    raft_history::agreeing_reaches_back(h.logs[i], h.logs[l], h.anchor, entry.index as int);
    assert(h.logs[i].take(entry.index as int)[entry.index - 1] == h.logs[l].take(
        entry.index as int,
    )[entry.index - 1]);
    assert(knows(node, entry));
    if entry.index > node.log.base_index {
        assert(node.log.get(entry.index) == Some(h.logs[i][entry.index - 1]));
    }
}

/// The leader has committed a settled entry.
proof fn leaders_have_committed(c: ClusterV, h: History, l: int, entry: LogEntryV)
    requires
        settles(c, h, l, entry),
    ensures
        0 <= l < c.nodes.len(),
        l == c.leader_at(),
        c.wf(),
        c.nodes[l].commit_index >= entry.index,
        entry.index <= c.nodes[l].log.last_index(),
{
    raft_soundness::explained_place(c, h, l);
    raft_soundness::explained_member(c, h, l, l);
    raft_history::rest_shows(c.nodes[l].log, h.logs[l]);
    holders_have_committed(c, h, l, l, entry);
}

/// Where a settled entry is anchored still, and whoever holds it knows, it is
/// settled.
proof fn going_on_settles(c: ClusterV, d: ClusterV, entry: LogEntryV)
    requires
        settled(c, entry),
        leads_to(c, d),
        all_know(d, entry),
    ensures
        settled(d, entry),
{
    let l = c.leader_at();
    let m = d.leader_at();
    let h = choose|h: History| #[trigger] settles(c, h, l, entry);
    let g = choose|g: History| #[trigger] g.explains(d, m) && succeeds(h, l, g, m);
    raft_history::agreeing_reaches_back(h.logs[l], g.logs[m], h.anchor, entry.index as int);
    assert(h.logs[l].take(entry.index as int)[entry.index - 1] == g.logs[m].take(
        entry.index as int,
    )[entry.index - 1]);
    assert(settles(d, g, m, entry));
}

proof fn appending_tells(
    node: NodeV,
    term: Term,
    prev: Index,
    prev_term: Term,
    entries: Seq<LogEntryV>,
    commit: Index,
    entry: LogEntryV,
)
    requires
        node.wf(),
        memlog::contiguous(entries, prev + 1),
        knows(node, entry),
        commit >= entry.index,
    ensures
        knows(node.append_entries(term, prev, prev_term, entries, commit).0, entry),
{
    raft_node_laws::appending_keeps(node, term, prev, prev_term, entries, commit);
    reveal(NodeV::append_entries);
    let (after, result) = node.append_entries(term, prev, prev_term, entries, commit);
    assert(after.log.last_index() == after.log.base_index + after.log.entries.len());
}

proof fn installing_tells(
    node: NodeV,
    term: Term,
    data: SnapshotDataV,
    commit: Index,
    entry: LogEntryV,
)
    requires
        node.wf(),
        knows(node, entry),
        commit >= entry.index,
    ensures
        knows(node.install_snapshot(term, data, commit).0, entry),
{
    reveal(NodeV::install_snapshot);
}

/// Catching up tells a member of what it takes.
#[verifier::rlimit(40)]
proof fn catching_up_tells(c: ClusterV, l: int, i: int, sent: bool, entry: LogEntryV)
    requires
        c.wf(),
        0 <= l < c.nodes.len(),
        0 <= i < c.nodes.len(),
        i != l,
        c.nodes[l].commit_index >= entry.index,
        knows(c.nodes[i], entry),
    ensures
        knows(c.catch_up(l, i, sent).0.nodes[i], entry),
    decreases
            (if sent {
                0int
            } else {
                1int
            }), c.next_index[i],
{
    let leader = c.nodes[l];
    let next = c.next_index[i];
    let last = leader.log.last_index();
    let (term, commit) = (leader.current_term, leader.commit_index);
    let most = (u64::MAX - 1) as u64;
    raft_laws::valid_is_bounded(c);
    assert(c.member_ok(l));
    assert(c.member_ok(i));
    if next > last + 1 {
        raft_laws::tracking_keeps(c, i, (last + 1) as u64, 0);
        catching_up_tells(c.with_next(i, (last + 1) as u64), l, i, sent, entry);
    } else if next <= leader.log.base_index {
        if let Some(data) = leader.snapshot {
            if !sent {
                installing_tells(c.nodes[i], term, data, commit, entry);
                raft_node_laws::installing_keeps(c.nodes[i], term, data, commit);
                let (node, result) = c.nodes[i].install_snapshot(term, data, commit);
                raft_laws::replacing_keeps(c, i, node, u64::MAX, most);
                let d = c.with_node(i, node);
                if result is Ok && result->Ok_0 {
                    raft_laws::tracking_keeps(d, i, 1, data.last_included_index);
                    let e = d.with_progress(i, data.last_included_index);
                    catching_up_tells(e, l, i, true, entry);
                    assert(c.catch_up(l, i, sent) == e.catch_up(l, i, true));
                }
            }
        }
    } else {
        let prev = (next - 1) as u64;
        let prev_term = if prev == 0 {
            Some(0)
        } else {
            leader.log.term_at(prev)
        };
        raft_laws::sent_entries_follow(c, l, next);
        if let Some(t) = prev_term {
            let entries = leader.log.entries_from(next);
            appending_tells(c.nodes[i], term, prev, t, entries, commit, entry);
            raft_node_laws::appending_keeps(c.nodes[i], term, prev, t, entries, commit);
            let (node, result) = c.nodes[i].append_entries(term, prev, t, entries, commit);
            raft_laws::replacing_keeps(c, i, node, u64::MAX, most);
            let d = c.with_node(i, node);
            if result is Ok && !result->Ok_0 && next > 1 {
                raft_laws::tracking_keeps(d, i, prev, 0);
                let e = d.with_next(i, prev);
                catching_up_tells(e, l, i, sent, entry);
                assert(c.catch_up(l, i, sent) == e.catch_up(l, i, sent));
            }
        } else if next > 1 {
            raft_laws::tracking_keeps(c, i, prev, 0);
            catching_up_tells(c.with_next(i, prev), l, i, sent, entry);
        }
    }
}

proof fn replicating_tells(c: ClusterV, l: int, i: int, entry: LogEntryV)
    requires
        c.wf(),
        0 <= l < c.nodes.len(),
        0 <= i < c.nodes.len(),
        c.nodes[l].commit_index >= entry.index,
        all_know(c, entry),
    ensures
        ({
            let d = c.replicate(l, i).0;
            &&& all_know(d, entry)
            &&& d.wf()
            &&& d.nodes[l] == c.nodes[l]
            &&& d.nodes.len() == c.nodes.len()
        }),
{
    reveal(ClusterV::replicate);
    raft_laws::valid_is_bounded(c);
    raft_laws::replicating_keeps(c, l, i, u64::MAX, (u64::MAX - 1) as u64);
    assert(c.member_ok(i));
    assert(knows(c.nodes[i], entry));
    if i != l {
        catching_up_tells(c, l, i, false, entry);
    }
    let d = c.replicate(l, i).0;
    assert forall|k: int| 0 <= k < d.nodes.len() implies knows(#[trigger] d.nodes[k], entry) by {
        if k != i {
            assert(d.nodes[k] == c.nodes[k]);
        }
    }
}

proof fn replicating_from_tells(
    c: ClusterV,
    l: int,
    k: int,
    end: int,
    acks: int,
    entry: LogEntryV,
)
    requires
        c.wf(),
        0 <= l < c.nodes.len(),
        0 <= k <= end <= c.nodes.len(),
        c.nodes[l].commit_index >= entry.index,
        all_know(c, entry),
    ensures
        ({
            let d = c.replicate_from(l, k, end, acks).0;
            &&& all_know(d, entry)
            &&& d.wf()
            &&& d.nodes[l] == c.nodes[l]
            &&& d.nodes.len() == c.nodes.len()
        }),
    decreases end - k,
{
    if k < end {
        if k == l {
            replicating_from_tells(c, l, k + 1, end, acks, entry);
        } else {
            replicating_tells(c, l, k, entry);
            let (d, result) = c.replicate(l, k);
            if let Ok(taken) = result {
                let more = if taken {
                    acks + 1
                } else {
                    acks
                };
                replicating_from_tells(d, l, k + 1, end, more, entry);
            }
        }
    }
}

/// A round of heartbeats leaves a settled entry settled.
pub proof fn heartbeats_stay_settled(c: ClusterV, entry: LogEntryV)
    requires
        settled(c, entry),
    ensures
        settled(c.heartbeat_round().0, entry),
{
    reveal(ClusterV::heartbeat_round);
    let l = c.leader_at();
    let h = choose|h: History| #[trigger] settles(c, h, l, entry);
    leaders_have_committed(c, h, l, entry);
    assert(sound(c));
    raft_guarantees::heartbeats_lead_on(c);
    if c.nodes[l].role == Role::Leader {
        replicating_from_tells(
            c,
            l,
            0,
            c.nodes.len() as int,
            if c.connected[l] {
                1
            } else {
                0
            },
            entry,
        );
    }
    going_on_settles(c, c.heartbeat_round().0, entry);
}

/// Whatever changes no log and takes no commit back leaves everybody knowing.
proof fn resting_tells(c: ClusterV, d: ClusterV, entry: LogEntryV)
    requires
        all_know(c, entry),
        d.nodes.len() == c.nodes.len(),
        forall|k: int|
            0 <= k < c.nodes.len() ==> (#[trigger] d.nodes[k]).log == c.nodes[k].log
                && d.nodes[k].commit_index >= c.nodes[k].commit_index,
    ensures
        all_know(d, entry),
{
    assert forall|k: int| 0 <= k < d.nodes.len() implies knows(#[trigger] d.nodes[k], entry) by {
        assert(knows(c.nodes[k], entry));
    }
}

/// Another proposal leaves a settled entry settled.
#[verifier::rlimit(40)]
pub proof fn proposals_stay_settled(c: ClusterV, command: CommandV, entry: LogEntryV)
    requires
        settled(c, entry),
        c.log_room(1),
    ensures
        settled(c.propose(command).0, entry),
{
    reveal(ClusterV::propose);
    let l = c.leader_at();
    let h = choose|h: History| #[trigger] settles(c, h, l, entry);
    leaders_have_committed(c, h, l, entry);
    assert(sound(c));
    raft_guarantees::proposals_lead_on(c, command);
    let leader = c.nodes[l];
    let end = c.nodes.len() as int;
    let most = (u64::MAX - 1) as u64;
    if leader.role == Role::Leader {
        assert(c.member_ok(l));
        raft_laws::valid_is_bounded(c);
        raft_laws::writing_keeps(leader, command, leader.current_term);
        let (node, result) = leader.append_local(command, leader.current_term);
        assert(leader.log.last_index() == leader.log.base_index + leader.log.entries.len());
        raft_laws::replacing_keeps(c, l, node, u64::MAX, most);
        let d = c.with_node(l, node);
        assert forall|k: int| 0 <= k < d.nodes.len() implies knows(
            #[trigger] d.nodes[k],
            entry,
        ) by {
            assert(knows(c.nodes[k], entry));
        }
        if let Ok(new) = result {
            raft_laws::tracking_keeps(d, l, 1, new.index);
            let written = d.with_progress(l, new.index);
            assert(all_know(written, entry)) by {
                resting_tells(d, written, entry);
            }
            replicating_from_tells(written, l, 0, end, 0, entry);
            let (sent, first) = written.replicate_from(l, 0, end, 0);
            if first is Ok {
                raft_laws::valid_is_bounded(sent);
                raft_laws::advancing_commit_keeps(sent, l, u64::MAX, most);
                let advanced = sent.advance_commit(l);
                resting_tells(sent, advanced, entry);
                replicating_from_tells(advanced, l, 0, end, 0, entry);
            }
        }
    }
    going_on_settles(c, c.propose(command).0, entry);
}

#[verifier::rlimit(40)]
proof fn collecting_tells(
    c: ClusterV,
    h: History,
    l: int,
    i: int,
    entry: LogEntryV,
)
    requires
        settles(c, h, l, entry),
        c.term_room(1),
        0 <= i < c.nodes.len(),
    ensures
        ({
            let stood = c.stood(i);
            let request = stood.ballot(i);
            let asked = stood.collect_votes(i, request, 0, c.nodes.len() as int, 1).0;
            all_know(asked, entry)
        }),
{
    let stood = c.stood(i);
    let request = stood.ballot(i);
    let end = c.nodes.len() as int;
    leaders_have_committed(c, h, l, entry);
    raft_steps::standing_is_explained(c, h, l, i);
    assert(all_rest(c, stood)) by {
        reveal(ClusterV::stood);
    }
    raft_steps::collecting_rests(stood, i, request, 0, end, 1);
    let asked = stood.collect_votes(i, request, 0, end, 1).0;
    assert forall|k: int| 0 <= k < c.nodes.len() implies (#[trigger] asked.nodes[k]).log
        == c.nodes[k].log && asked.nodes[k].commit_index >= c.nodes[k].commit_index by {
        assert(rests(c.nodes[k], stood.nodes[k]));
        assert(rests(stood.nodes[k], asked.nodes[k]));
    }
    resting_tells(c, asked, entry);
}

/// A new leader that holds what is anchored tells whoever follows.
proof fn crowning_tells(c: ClusterV, h: History, l: int, i: int, entry: LogEntryV)
    requires
        settles(c, h, l, entry),
        0 <= i < c.nodes.len(),
        h.reign < c.nodes[i].current_term,
        agree(h.logs[i], h.logs[l], h.anchor),
    ensures
        all_know(c.crown(i, c.nodes[i].current_term).heartbeat_round().0, entry),
{
    let term = c.nodes[i].current_term;
    holders_have_committed(c, h, l, i, entry);
    let crowned = c.crown(i, term);
    let h2 = raft_steps::crowning_is_explained(c, h, l, i);
    raft_soundness::explained_place(crowned, h2, i);
    assert(all_know(crowned, entry) && crowned.nodes[i].commit_index >= entry.index) by {
        reveal(ClusterV::crown);
        resting_tells(c, crowned, entry);
    }
    reveal(ClusterV::heartbeat_round);
    if crowned.nodes[i].role == Role::Leader {
        replicating_from_tells(
            crowned,
            i,
            0,
            crowned.nodes.len() as int,
            if crowned.connected[i] {
                1
            } else {
                0
            },
            entry,
        );
    }
}

/// Elections leave whoever holds a settled entry knowing.
#[verifier::rlimit(40)]
proof fn electing_tells(c: ClusterV, h: History, l: int, i: int, entry: LogEntryV)
    requires
        settles(c, h, l, entry),
        c.term_room(1),
        0 <= i < c.nodes.len(),
    ensures
        all_know(c.elect(i).0, entry),
{
    reveal(ClusterV::elect);
    raft_steps::standing_is_explained(c, h, l, i);
    collecting_tells(c, h, l, i, entry);
    let stood = c.stood(i);
    let request = stood.ballot(i);
    let end = c.nodes.len() as int;
    let (asked, votes, stopped) = stood.collect_votes(i, request, 0, end, 1);
    if !stopped {
        if votes >= c.quorum() {
            crowning_tells(asked, h, l, i, entry);
        } else {
            let node = NodeV { election_elapsed: 0, ..asked.nodes[i].increase_backoff() };
            resting_tells(asked, asked.with_node(i, node), entry);
        }
    }
}

/// A settled entry stays where a history goes on from one behind it.
proof fn succeeding_settles(
    c: ClusterV,
    h: History,
    l: int,
    d: ClusterV,
    g: History,
    m: int,
    entry: LogEntryV,
)
    requires
        settles(c, h, l, entry),
        g.explains(d, m),
        succeeds(h, l, g, m),
        all_know(d, entry),
    ensures
        settles(d, g, m, entry),
{
    raft_history::agreeing_reaches_back(h.logs[l], g.logs[m], h.anchor, entry.index as int);
    assert(h.logs[l].take(entry.index as int)[entry.index - 1] == g.logs[m].take(
        entry.index as int,
    )[entry.index - 1]);
}

/// Elections that a tick brings.
#[verifier::rlimit(40)]
proof fn maybe_electing_tells(c: ClusterV, h: History, l: int, entry: LogEntryV)
    requires
        settles(c, h, l, entry),
        c.term_room(1),
        forall|k: int|
            0 <= k < c.nodes.len() ==> (#[trigger] c.nodes[k]).election_elapsed < c.clock_ticks,
    ensures
        all_know(c.maybe_elect().0, entry),
{
    leaders_have_committed(c, h, l, entry);
    raft_laws::valid_is_bounded(c);
    raft_laws::ticking_elections_keeps(c, u64::MAX, (u64::MAX - 1) as u64);
    let d = c.tick_elections();
    raft_soundness::resting_is_explained(c, d, h, l);
    resting_tells(c, d, entry);
    raft_laws::first_timeout_is_a_place(c.nodes, 0);
    if let Some(i) = raft_model::first_timeout(c.nodes, 0) {
        assert(d.term_room(1)) by {
            assert forall|k: int| 0 <= k < d.nodes.len() implies (
            #[trigger] d.nodes[k]).current_term + 1 <= u64::MAX by {
                assert(c.nodes[k].current_term + 1 <= u64::MAX);
            }
        }
        electing_tells(d, h, l, i, entry);
        let g = raft_steps::electing_is_explained(d, h, l, i);
        let e = d.elect(i).0;
        succeeding_settles(d, h, l, e, g, e.leader_at(), entry);
        heartbeats_stay_settled(e, entry);
        let k = choose|k: History| #[trigger]
            settles(e.heartbeat_round().0, k, e.heartbeat_round().0.leader_at(), entry);
    }
}

/// A tick leaves a settled entry settled.
#[verifier::rlimit(40)]
pub proof fn ticks_stay_settled(c: ClusterV, entry: LogEntryV)
    requires
        settled(c, entry),
        c.room(1),
    ensures
        settled(c.tick().0, entry),
{
    reveal(ClusterV::tick);
    let most = (u64::MAX - 1) as u64;
    let l = c.leader_at();
    let h = choose|h: History| #[trigger] settles(c, h, l, entry);
    assert(sound(c));
    raft_guarantees::ticks_lead_on(c);
    leaders_have_committed(c, h, l, entry);
    raft_laws::valid_is_bounded(c);
    raft_laws::pulsing_keeps(c, u64::MAX, most);
    let (d, due) = c.pulse();
    assert(all_rest(c, d));
    raft_soundness::resting_is_explained(c, d, h, l);
    raft_soundness::explained_place(d, h, l);
    resting_tells(c, d, entry);
    assert(raft_laws::bounded(d, most, most)) by {
        assert forall|k: int| 0 <= k < d.nodes.len() implies (#[trigger] d.nodes[k]).current_term
            <= most && d.nodes[k].log.last_index() <= most by {
            assert(c.nodes[k].current_term + 1 <= u64::MAX);
            assert(d.member_ok(k));
        }
    }
    if due {
        raft_laws::heartbeats_keep(d, most, most);
        assert(settles(d, h, l, entry));
        heartbeats_stay_settled(d, entry);
        let (e, result) = d.heartbeat_round();
        let g = choose|g: History| #[trigger] settles(e, g, e.leader_at(), entry);
        if result is Ok {
            maybe_electing_tells(e, g, e.leader_at(), entry);
        }
    } else {
        maybe_electing_tells(d, h, l, entry);
    }
    going_on_settles(c, c.tick().0, entry);
}

/// So do many ticks.
pub proof fn many_ticks_stay_settled(c: ClusterV, ticks: nat, entry: LogEntryV)
    requires
        settled(c, entry),
        c.room(ticks as int),
    ensures
        settled(c.tick_many(ticks).0, entry),
    decreases ticks,
{
    if ticks > 0 {
        let h = choose|h: History| #[trigger] settles(c, h, c.leader_at(), entry);
        leaders_have_committed(c, h, c.leader_at(), entry);
        assert(c.room(1));
        ticks_stay_settled(c, entry);
        raft_laws::ticking_takes_room(c, ticks as int);
        if c.tick().1 is Ok {
            many_ticks_stay_settled(c.tick().0, (ticks - 1) as nat, entry);
        }
    }
}

/// Disconnecting and reconnecting members leaves a settled entry settled.
#[verifier::rlimit(40)]
pub proof fn connections_stay_settled(c: ClusterV, id: NodeId, entry: LogEntryV)
    requires
        settled(c, entry),
    ensures
        settled(c.disconnect(id).0, entry),
        settled(c.reconnect(id).0, entry),
{
    let l = c.leader_at();
    let h = choose|h: History| #[trigger] settles(c, h, l, entry);
    leaders_have_committed(c, h, l, entry);
    assert(sound(c));
    raft_guarantees::disconnecting_leads_on(c, id);
    resting_tells(c, c.disconnect(id).0, entry);
    going_on_settles(c, c.disconnect(id).0, entry);
    raft_guarantees::reconnecting_leads_on(c, id);
    if raft_model::has_member(c.nodes, id) {
        let i = raft_model::position(c.nodes, id);
        let end = c.nodes.len() as int;
        let joined = ClusterV { connected: c.connected.update(i, true), ..c };
        raft_steps::connecting_keeps(c, joined);
        resting_tells(c, joined, entry);
        if id == c.leader_id {
            reveal(ClusterV::heartbeat_round);
            raft_soundness::resting_is_explained(c, joined, h, l);
            raft_soundness::explained_place(joined, h, l);
            assert(settles(joined, h, l, entry));
            heartbeats_stay_settled(joined, entry);
            let g = choose|g: History| #[trigger]
                settles(joined.heartbeat_round().0, g, joined.heartbeat_round().0.leader_at(), entry);
        } else {
            replicating_tells(joined, l, i, entry);
            replicating_from_tells(joined.replicate(l, i).0, l, 0, end, 0, entry);
        }
    }
    going_on_settles(c, c.reconnect(id).0, entry);
}

/// A snapshot of the leader leaves a settled entry settled.
pub proof fn snapshots_stay_settled(c: ClusterV, entry: LogEntryV)
    requires
        settled(c, entry),
    ensures
        settled(c.create_leader_snapshot().0, entry),
{
    let l = c.leader_at();
    let h = choose|h: History| #[trigger] settles(c, h, l, entry);
    leaders_have_committed(c, h, l, entry);
    assert(sound(c));
    raft_guarantees::snapshots_lead_on(c);
    let d = c.create_leader_snapshot().0;
    assert(c.member_ok(l));
    assert forall|k: int| 0 <= k < d.nodes.len() implies knows(#[trigger] d.nodes[k], entry) by {
        assert(knows(c.nodes[k], entry));
        if k == l {
            reveal(NodeV::create_snapshot);
        }
    }
    going_on_settles(c, d, entry);
}

/// Every leader has committed a settled entry: it stands where it stood among
/// the entries that its state is built from.
pub proof fn settled_entries_are_in_the_state(c: ClusterV, entry: LogEntryV) -> (entries: Seq<
    LogEntryV,
>)
    requires
        settled(c, entry),
    ensures
        c.nodes[c.leader_at()].commit_index >= entry.index >= 1,
        entries.len() == c.nodes[c.leader_at()].commit_index,
        entries[entry.index - 1] == entry,
        c.nodes[c.leader_at()].state == state_machine::replayed(KvMap::empty(), entries),
{
    let l = c.leader_at();
    let h = choose|h: History| #[trigger] settles(c, h, l, entry);
    leaders_have_committed(c, h, l, entry);
    raft_soundness::explained_member(c, h, l, l);
    raft_history::rest_shows(c.nodes[l].log, h.logs[l]);
    h.logs[l].take(c.nodes[l].commit_index as int)
}

/// An election leaves a settled entry settled.
pub proof fn elections_stay_settled(c: ClusterV, id: NodeId, entry: LogEntryV)
    requires
        settled(c, entry),
        c.term_room(1),
    ensures
        settled(c.start_election(id).0, entry),
{
    let l = c.leader_at();
    let h = choose|h: History| #[trigger] settles(c, h, l, entry);
    assert(sound(c));
    raft_guarantees::elections_lead_on(c, id);
    if raft_model::has_member(c.nodes, id) {
        electing_tells(c, h, l, raft_model::position(c.nodes, id), entry);
    }
    going_on_settles(c, c.start_election(id).0, entry);
}

/// A cluster with a settled entry is sound, and so valid.
pub proof fn settled_is_valid(c: ClusterV, entry: LogEntryV)
    requires
        settled(c, entry),
    ensures
        sound(c),
        c.wf(),
{
    let l = c.leader_at();
    let h = choose|h: History| #[trigger] settles(c, h, l, entry);
    leaders_have_committed(c, h, l, entry);
    assert(h.explains(c, l));
}

/// The member holds the entry, or is taken to.
pub open spec fn has_got(c: ClusterV, i: int, entry: LogEntryV) -> bool {
    c.nodes[i].log.get(entry.index) == Some(entry) || c.match_index[i] >= entry.index
}

/// The leader at `l` reaches the member at `i`, which follows it.
pub open spec fn reaches_out(c: ClusterV, l: int, i: int) -> bool {
    c.available(l) && raft_progress::follows(c, l, i)
}

/// A member in a later term takes nothing.
proof fn later_terms_take_nothing(c: ClusterV, l: int, i: int, sent: bool)
    requires
        c.wf(),
        0 <= l < c.nodes.len(),
        0 <= i < c.nodes.len(),
        i != l,
        c.nodes[i].current_term > c.nodes[l].current_term,
    ensures
        c.catch_up(l, i, sent).0.nodes =~= c.nodes,
        c.catch_up(l, i, sent).0.match_index == c.match_index,
    decreases
            (if sent {
                0int
            } else {
                1int
            }), c.next_index[i],
{
    reveal(NodeV::append_entries);
    reveal(NodeV::install_snapshot);
    let leader = c.nodes[l];
    let next = c.next_index[i];
    let last = leader.log.last_index();
    assert(c.member_ok(i));
    assert(c.nodes.update(i, c.nodes[i]) =~= c.nodes);
    if next > last + 1 {
        raft_laws::valid_is_bounded(c);
        raft_laws::tracking_keeps(c, i, (last + 1) as u64, 0);
        later_terms_take_nothing(c.with_next(i, (last + 1) as u64), l, i, sent);
    } else if next > leader.log.base_index && next > 1 {
        raft_laws::valid_is_bounded(c);
        raft_laws::tracking_keeps(c, i, (next - 1) as u64, 0);
        let e = c.with_next(i, (next - 1) as u64);
        later_terms_take_nothing(e, l, i, sent);
    }
}

/// Only members that the leader reaches take an entry.
#[verifier::rlimit(40)]
proof fn only_followers_take(
    c: ClusterV,
    l: int,
    k: int,
    end: int,
    acks: int,
    entry: LogEntryV,
)
    requires
        c.wf(),
        0 <= l < c.nodes.len(),
        0 <= k <= end <= c.nodes.len(),
    ensures
        ({
            let d = c.replicate_from(l, k, end, acks).0;
            &&& d.nodes.len() == c.nodes.len()
            &&& d.match_index.len() == c.match_index.len()
            &&& d.nodes[l] == c.nodes[l]
            &&& d.match_index[l] == c.match_index[l]
            &&& forall|i: int|
                0 <= i < c.nodes.len() && i != l && #[trigger] has_got(d, i, entry) ==> has_got(c, i, entry)
                    || reaches_out(c, l, i)
        }),
    decreases end - k,
{
    if k < end {
        if k == l {
            only_followers_take(c, l, k + 1, end, acks, entry);
        } else {
            reveal(ClusterV::replicate);
            raft_laws::valid_is_bounded(c);
            raft_laws::replicating_keeps(c, l, k, u64::MAX, (u64::MAX - 1) as u64);
            raft_progress::catching_up_is_known(c, l, k, false);
            if c.nodes[k].current_term > c.nodes[l].current_term {
                later_terms_take_nothing(c, l, k, false);
            }
            let (d, result) = c.replicate(l, k);
            assert forall|i: int| 0 <= i < c.nodes.len() && i != l && #[trigger] has_got(d, i, entry)
                implies has_got(c, i, entry) || reaches_out(c, l, i) by {
                if i != k {
                    assert(d.nodes[i] == c.nodes[i]);
                    assert(d.match_index[i] == c.match_index[i]);
                }
            }
            assert(d.nodes[l] == c.nodes[l]);
            assert(d.match_index[l] == c.match_index[l]);
            if let Ok(taken) = result {
                let more = if taken {
                    acks + 1
                } else {
                    acks
                };
                only_followers_take(d, l, k + 1, end, more, entry);
                let e = d.replicate_from(l, k + 1, end, more).0;
                assert forall|i: int|
                    0 <= i < c.nodes.len() && i != l && #[trigger] has_got(e, i, entry) implies has_got(
                    c,
                    i,
                    entry,
                ) || reaches_out(c, l, i) by {
                    if has_got(d, i, entry) {
                    } else {
                        assert(reaches_out(d, l, i));
                        if i != k {
                            assert(d.nodes[i] == c.nodes[i]);
                        } else {
                            assert(c.nodes[k].current_term <= d.nodes[k].current_term);
                        }
                    }
                }
            }
        }
    }
}

/// Nobody but the leader has a new entry.
proof fn new_entries_are_new(c: ClusterV, h: History, l: int, command: CommandV)
    requires
        h.explains(c, l),
        c.nodes[l].role == Role::Leader,
        c.nodes[l].log.last_index() + 1 < u64::MAX,
    ensures
        forall|i: int|
            0 <= i < c.nodes.len() && i != l ==> !#[trigger] has_got(c, i, c.next_entry(command)),
        h.anchor < c.next_entry(command).index,
{
    raft_soundness::explained_place(c, h, l);
    let entry = c.next_entry(command);
    raft_soundness::explained_member(c, h, l, l);
    raft_history::rest_shows(c.nodes[l].log, h.logs[l]);
    reveal(History::explains);
    assert forall|i: int| 0 <= i < c.nodes.len() && i != l implies !#[trigger] has_got(
        c,
        i,
        entry,
    ) by {
        raft_soundness::explained_member(c, h, l, i);
        raft_history::rest_shows(c.nodes[i].log, h.logs[i]);
        assert(agree(h.logs[i], h.logs[l], c.match_index[i] as int));
        if c.nodes[i].log.get(entry.index) == Some(entry) {
            assert(h.logs[i][entry.index - 1] == entry);
            assert(h.logs[i][entry.index - 1].term == h.reign);
        }
    }
}

/// Telling of a commit tells all who have the entry: those who follow, where
/// only they have it.
proof fn told_followers_know(c: ClusterV, h: History, l: int, entry: LogEntryV)
    requires
        h.explains(c, l),
        c.nodes[l].commit_index >= entry.index,
        forall|i: int|
            0 <= i < c.nodes.len() && i != l && #[trigger] has_got(c, i, entry) ==> reaches_out(
                c,
                l,
                i,
            ),
        c.replicate_from(l, 0, c.nodes.len() as int, 0).1 is Ok,
    ensures
        all_know(c.replicate_from(l, 0, c.nodes.len() as int, 0).0, entry),
{
    let end = c.nodes.len() as int;
    raft_soundness::explained_place(c, h, l);
    only_followers_take(c, l, 0, end, 0, entry);
    let d = c.replicate_from(l, 0, end, 0).0;
    if c.available(l) {
        raft_progress::many_are_brought_up(c, h, l, 0, end, 0);
    }
    assert forall|i: int| 0 <= i < d.nodes.len() implies knows(#[trigger] d.nodes[i], entry) by {
        if i != l && d.nodes[i].log.get(entry.index) == Some(entry) {
            assert(has_got(d, i, entry));
            assert(reaches_out(c, l, i));
        }
    }
}

/// A proposal that the leader commits is settled; one that it does not commit,
/// nobody has committed.
#[verifier::rlimit(40)]
pub proof fn proposals_settle(c: ClusterV, command: CommandV) -> (g: History)
    requires
        sound(c),
        c.log_room(1),
        c.propose(command).1 is Ok,
    ensures
        ({
            let (after, result) = c.propose(command);
            let entry = c.next_entry(command);
            let l = after.leader_at();
            &&& result->Ok_0.index == entry.index
            &&& g.explains(after, l)
            &&& after.nodes[l].commit_index >= entry.index ==> settled(after, entry)
            &&& after.nodes[l].commit_index < entry.index ==> g.anchor < entry.index
        }),
{
    reveal(ClusterV::propose);
    let l = c.leader_at();
    let h = choose|h: History| #[trigger] h.explains(c, l);
    raft_soundness::explained_place(c, h, l);
    raft_soundness::explained_member(c, h, l, l);
    raft_history::rest_shows(c.nodes[l].log, h.logs[l]);
    let entry = c.next_entry(command);
    let leader = c.nodes[l];
    let end = c.nodes.len() as int;
    new_entries_are_new(c, h, l, command);
    let h1 = raft_steps::writing_is_explained(c, h, l, command);
    let node = leader.append_local(command, leader.current_term).0;
    let written = c.with_node(l, node).with_progress(l, entry.index);
    assert forall|i: int| 0 <= i < c.nodes.len() && i != l implies !#[trigger] has_got(
        written,
        i,
        entry,
    ) by {
        assert(!has_got(c, i, entry));
    }
    let h2 = raft_steps::replicating_from_is_explained(written, h1, l, 0, end, 0);
    raft_soundness::explained_place(written, h1, l);
    only_followers_take(written, l, 0, end, 0, entry);
    let sent = written.replicate_from(l, 0, end, 0).0;
    raft_soundness::explained_place(sent, h2, l);
    followers_stay_followers(written, h1, l, entry);
    let h3 = raft_steps::advancing_is_explained(sent, h2, l);
    let advanced = sent.advance_commit(l);
    raft_soundness::explained_place(advanced, h3, l);
    assert forall|i: int| 0 <= i < c.nodes.len() && i != l && #[trigger] has_got(
        advanced,
        i,
        entry,
    ) implies reaches_out(advanced, l, i) by {
        assert(has_got(sent, i, entry));
        assert(reaches_out(sent, l, i));
    }
    let h4 = raft_steps::replicating_from_is_explained(advanced, h3, l, 0, end, 0);
    let told = advanced.replicate_from(l, 0, end, 0).0;
    raft_soundness::explained_place(told, h4, l);
    raft_soundness::explained_member(told, h4, l, l);
    if told.nodes[l].commit_index >= entry.index {
        told_followers_know(advanced, h3, l, entry);
        assert(h4.logs[l][entry.index - 1] == entry);
        assert(settles(told, h4, l, entry));
    }
    h4
}

/// Whoever took an entry from the leader still follows it.
proof fn followers_stay_followers(c: ClusterV, h: History, l: int, entry: LogEntryV)
    requires
        h.explains(c, l),
        forall|i: int| 0 <= i < c.nodes.len() && i != l ==> !#[trigger] has_got(c, i, entry),
        c.replicate_from(l, 0, c.nodes.len() as int, 0).1 is Ok,
    ensures
        ({
            let d = c.replicate_from(l, 0, c.nodes.len() as int, 0).0;
            forall|i: int|
                0 <= i < c.nodes.len() && i != l && #[trigger] has_got(d, i, entry) ==> reaches_out(
                    d,
                    l,
                    i,
                )
        }),
{
    let end = c.nodes.len() as int;
    raft_soundness::explained_place(c, h, l);
    only_followers_take(c, l, 0, end, 0, entry);
    let d = c.replicate_from(l, 0, end, 0).0;
    if c.available(l) {
        raft_progress::many_are_brought_up(c, h, l, 0, end, 0);
    }
    assert forall|i: int| 0 <= i < c.nodes.len() && i != l && #[trigger] has_got(
        d,
        i,
        entry,
    ) implies reaches_out(d, l, i) by {
        assert(!has_got(c, i, entry));
        assert(reaches_out(c, l, i));
        assert(raft_progress::follows(c, l, i));
        assert(d.nodes[i].current_term == c.nodes[l].current_term);
    }
}

} // verus!
