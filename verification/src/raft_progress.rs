//! What a leader achieves while it is connected: whoever follows it catches up,
//! and what a majority that follows it is asked to keep is committed.
use vstd::prelude::*;

use crate::raft_guarantees;
use crate::raft_guarantees::holds_all;
use crate::raft_history;
use crate::raft_laws;
use crate::raft_model;
use crate::raft_model::ClusterV;
use crate::raft_node::{NodeV, Role};
use crate::raft_persistence;
use crate::raft_persistence::{all_keep, kept};
use crate::raft_safety;
use crate::raft_safety::told_of;
use crate::raft_soundness;
use crate::raft_soundness::{sound, tally, History};
use crate::raft_steps;
use crate::snapshot_codec::SnapshotDataV;
use crate::types::{CommandV, DbErrorV, Index, LogEntryV, Term};
use crate::wal_codec;

verus! {

/// The member at `i` follows the one at `l`: it is connected, and in no later
/// term.
pub open spec fn follows(c: ClusterV, l: int, i: int) -> bool {
    i == l || (c.connected[i] && c.nodes[i].current_term <= c.nodes[l].current_term)
}

/// Who follows the member at `l`.
pub open spec fn followers(c: ClusterV, l: int) -> Seq<bool> {
    Seq::new(c.nodes.len(), |i: int| follows(c, l, i))
}

/// Nobody keeps files.
pub open spec fn without_files(c: ClusterV) -> bool {
    forall|i: int| 0 <= i < c.nodes.len() ==> (#[trigger] c.nodes[i]).wal is None
}

/// A member that has caught up with a leader: it holds the leader's log, and has
/// committed what the leader has, and no more than that or what it had before.
pub open spec fn caught_up(before: NodeV, after: NodeV, leader: NodeV) -> bool {
    &&& holds_all(after, leader.log)
    &&& after.commit_index >= leader.commit_index
    &&& told_of(before, after, leader)
}

proof fn appending_stays_in_term(
    node: NodeV,
    term: Term,
    prev: Index,
    prev_term: Term,
    entries: Seq<LogEntryV>,
    commit: Index,
)
    ensures
        ({
            let after = node.append_entries(term, prev, prev_term, entries, commit).0;
            &&& node.current_term == term ==> after.current_term == term
            &&& node.wal is None ==> after.wal is None
        }),
{
    reveal(NodeV::append_entries);
}

proof fn installing_stays_in_term(node: NodeV, term: Term, data: SnapshotDataV, commit: Index)
    ensures
        ({
            let after = node.install_snapshot(term, data, commit).0;
            &&& node.current_term == term ==> after.current_term == term
            &&& node.wal is None ==> after.wal is None
        }),
{
    reveal(NodeV::install_snapshot);
}

/// Catching up stays in the leader's term and opens no files; and the leader
/// knows of who has caught up.
pub proof fn catching_up_is_known(c: ClusterV, l: int, i: int, sent: bool)
    requires
        0 <= l < c.nodes.len(),
        0 <= i < c.nodes.len(),
        i != l,
        c.next_index.len() == c.nodes.len(),
        c.match_index.len() == c.nodes.len(),
    ensures
        ({
            let (after, result) = c.catch_up(l, i, sent);
            &&& c.nodes[i].current_term == c.nodes[l].current_term ==> after.nodes[i].current_term
                == c.nodes[l].current_term
            &&& c.nodes[i].wal is None ==> after.nodes[i].wal is None
            &&& (result is Ok && result->Ok_0) ==> after.match_index[i]
                == c.nodes[l].log.last_index()
            &&& forall|k: int|
                0 <= k < c.nodes.len() && k != i ==> #[trigger] after.match_index[k]
                    == c.match_index[k]
        }),
    decreases
            (if sent {
                0int
            } else {
                1int
            }), c.next_index[i],
{
    let leader = c.nodes[l];
    let next = c.next_index[i];
    let last = leader.log.last_index();
    if next > last + 1 {
        catching_up_is_known(c.with_next(i, (last + 1) as u64), l, i, sent);
    } else if next <= leader.log.base_index {
        if let Some(data) = leader.snapshot {
            if !sent {
                installing_stays_in_term(
                    c.nodes[i],
                    leader.current_term,
                    data,
                    leader.commit_index,
                );
                let (node, result) = c.nodes[i].install_snapshot(
                    leader.current_term,
                    data,
                    leader.commit_index,
                );
                if let Ok(installed) = result {
                    if installed {
                        let d = c.with_node(i, node).with_progress(i, data.last_included_index);
                        catching_up_is_known(d, l, i, true);
                    }
                }
            }
        }
    } else {
        let prev = if next > 0 {
            (next - 1) as u64
        } else {
            0
        };
        let prev_term = if prev == 0 {
            Some(0)
        } else {
            leader.log.term_at(prev)
        };
        match prev_term {
            None => if next > 1 {
                catching_up_is_known(c.with_next(i, (next - 1) as u64), l, i, sent);
            },
            Some(term) => {
                let entries = leader.log.entries_from(next);
                appending_stays_in_term(
                    c.nodes[i],
                    leader.current_term,
                    prev,
                    term,
                    entries,
                    leader.commit_index,
                );
                let (node, result) = c.nodes[i].append_entries(
                    leader.current_term,
                    prev,
                    term,
                    entries,
                    leader.commit_index,
                );
                if let Ok(taken) = result {
                    if !taken && next > 1 {
                        let d = c.with_node(i, node).with_next(i, (next - 1) as u64);
                        catching_up_is_known(d, l, i, sent);
                    }
                }
            },
        }
    }
}

/// What bringing the members from `k` up to `end` up to date has come to.
pub open spec fn brought_up(before: ClusterV, after: ClusterV, l: int, k: int, end: int) -> bool {
    &&& after.nodes.len() == before.nodes.len()
    &&& after.match_index.len() == before.match_index.len()
    &&& after.nodes[l] == before.nodes[l]
    &&& after.match_index[l] == before.match_index[l]
    &&& after.connected == before.connected
    &&& after.leader_id == before.leader_id
    &&& forall|i: int|
        k <= i < end && i != l && follows(before, l, i) ==> {
            &&& caught_up(before.nodes[i], #[trigger] after.nodes[i], before.nodes[l])
            &&& after.match_index[i] == before.nodes[l].log.last_index()
            &&& after.nodes[i].current_term == before.nodes[l].current_term
        }
    &&& forall|i: int|
        k <= i < end && before.nodes[i].wal is None ==> (#[trigger] after.nodes[i]).wal is None
    &&& forall|i: int|
        0 <= i < k ==> (#[trigger] after.nodes[i]) == before.nodes[i] && after.match_index[i]
            == before.match_index[i]
}

proof fn first_ones_stay(before: ClusterV, after: ClusterV, l: int, k: int, end: int, i: int)
    requires
        brought_up(before, after, l, k, end),
        0 <= i < k,
    ensures
        after.nodes[i] == before.nodes[i],
        after.match_index[i] == before.match_index[i],
{
    let node = after.nodes[i];
    assert(node == before.nodes[i]);
}

/// One member.
#[verifier::rlimit(40)]
proof fn one_is_brought_up(c: ClusterV, h: History, l: int, k: int)
    requires
        h.explains(c, l),
        c.available(l),
        0 <= k < c.nodes.len(),
        k != l,
    ensures
        ({
            let (after, result) = c.replicate(l, k);
            &&& raft_laws::only_member(c, after, k)
            &&& after.wf()
            &&& result is Ok && follows(c, l, k) ==> {
                &&& caught_up(c.nodes[k], after.nodes[k], c.nodes[l])
                &&& after.match_index[k] == c.nodes[l].log.last_index()
                &&& after.nodes[k].current_term == c.nodes[l].current_term
            }
            &&& c.nodes[k].wal is None ==> after.nodes[k].wal is None && result is Ok
            &&& forall|j: int|
                0 <= j < c.nodes.len() && j != k ==> #[trigger] after.match_index[j]
                    == c.match_index[j]
        }),
{
    raft_soundness::explained_place(c, h, l);
    raft_soundness::explained_member(c, h, l, k);
    raft_laws::valid_is_bounded(c);
    raft_laws::replicating_keeps(c, l, k, u64::MAX, (u64::MAX - 1) as u64);
    assert(sound(c));
    if follows(c, l, k) {
        raft_guarantees::connected_members_catch_up(c, k);
    }
    let (after, result) = c.replicate(l, k);
    reveal(ClusterV::replicate);
    catching_up_is_known(c, l, k, false);
    raft_safety::catching_up_commits_no_further(c, l, k, false);
    if c.connected[k] {
        let g = raft_soundness::catching_up_is_explained(c, h, l, k, false);
    }
}

/// Many members.
#[verifier::rlimit(40)]
pub proof fn many_are_brought_up(c: ClusterV, h: History, l: int, k: int, end: int, acks: int)
    requires
        h.explains(c, l),
        c.available(l),
        0 <= k <= end <= c.nodes.len(),
    ensures
        ({
            let (after, result) = c.replicate_from(l, k, end, acks);
            &&& result is Ok ==> brought_up(c, after, l, k, end)
            &&& (forall|i: int| k <= i < end ==> (#[trigger] c.nodes[i]).wal is None)
                ==> result is Ok
        }),
    decreases end - k,
{
    raft_soundness::explained_place(c, h, l);
    if k < end {
        if k == l {
            many_are_brought_up(c, h, l, k + 1, end, acks);
            let (after, result) = c.replicate_from(l, k, end, acks);
            if result is Ok {
                assert(after.nodes[k] == c.nodes[k]);
                assert forall|i: int| 0 <= i < k implies #[trigger] after.nodes[i] == c.nodes[i]
                    && after.match_index[i] == c.match_index[i] by {}
            }
        } else {
            one_is_brought_up(c, h, l, k);
            let h2 = raft_steps::replicating_is_explained(c, h, l, k);
            let (d, result) = c.replicate(l, k);
            raft_soundness::explained_place(d, h2, l);
            if let Ok(taken) = result {
                let more = if taken {
                    acks + 1
                } else {
                    acks
                };
                assert(d.nodes[l] == c.nodes[l]);
                many_are_brought_up(d, h2, l, k + 1, end, more);
                let (after, last) = d.replicate_from(l, k + 1, end, more);
                assert(c.replicate_from(l, k, end, acks) == (after, last));
                if last is Ok {
                    first_ones_stay(d, after, l, k + 1, end, k);
                    assert forall|i: int| k <= i < end && i != l && follows(c, l, i) implies {
                        &&& caught_up(c.nodes[i], #[trigger] after.nodes[i], c.nodes[l])
                        &&& after.match_index[i] == c.nodes[l].log.last_index()
                        &&& after.nodes[i].current_term == c.nodes[l].current_term
                    } by {
                        if i > k {
                            assert(d.nodes[i] == c.nodes[i]);
                            assert(follows(d, l, i));
                        }
                    }
                    assert forall|i: int| k <= i < end && c.nodes[i].wal is None implies (
                    #[trigger] after.nodes[i]).wal is None by {
                        if i > k {
                            assert(d.nodes[i] == c.nodes[i]);
                        }
                    }
                    assert forall|i: int| 0 <= i < k implies #[trigger] after.nodes[i]
                        == c.nodes[i] && after.match_index[i] == c.match_index[i] by {
                        first_ones_stay(d, after, l, k + 1, end, i);
                        assert(d.nodes[i] == c.nodes[i]);
                        assert(d.match_index[i] == c.match_index[i]);
                    }
                }
                if forall|i: int| k <= i < end ==> (#[trigger] c.nodes[i]).wal is None {
                    assert forall|i: int| k + 1 <= i < end implies (
                    #[trigger] d.nodes[i]).wal is None by {
                        assert(d.nodes[i] == c.nodes[i]);
                    }
                }
            } else {
                assert(c.nodes[k].wal is Some);
            }
        }
    }
}

/// After a round of heartbeats from a leader that is connected, everybody who
/// follows it has caught up with it: they hold its log, and who had committed no
/// more than the leader has its commit index and its state. Where nobody keeps
/// files, or the files stand for all members, the round does not fail.
#[verifier::rlimit(40)]
pub proof fn heartbeats_bring_followers_up(c: ClusterV, i: int)
    requires
        sound(c),
        c.available(c.leader_at()),
        0 <= i < c.nodes.len(),
        follows(c, c.leader_at(), i),
    ensures
        ({
            let (after, result) = c.heartbeat_round();
            let leader = c.nodes[c.leader_at()];
            &&& without_files(c) || kept(c) ==> result is Ok
            &&& result is Ok ==> {
                &&& holds_all(after.nodes[i], leader.log)
                &&& after.nodes[i].commit_index >= leader.commit_index
                &&& c.nodes[i].commit_index <= leader.commit_index
                    ==> after.nodes[i].commit_index == leader.commit_index && after.nodes[i].state
                    == leader.state
            }
        }),
{
    reveal(ClusterV::heartbeat_round);
    let l = c.leader_at();
    let h = choose|h: History| #[trigger] h.explains(c, l);
    let end = c.nodes.len() as int;
    raft_soundness::explained_place(c, h, l);
    raft_soundness::explained_member(c, h, l, l);
    raft_history::rest_shows(c.nodes[l].log, h.logs[l]);
    let acks = if c.connected[l] {
        1int
    } else {
        0int
    };
    many_are_brought_up(c, h, l, 0, end, acks);
    if kept(c) {
        let k = choose|k: History| #[trigger] all_keep(c, k, l);
        let g = raft_persistence::replicating_from_keeps(c, k, l, 0, end, acks);
    }
    let (after, result) = c.heartbeat_round();
    if result is Ok {
        let g = raft_steps::heartbeats_are_explained(c, h, l);
        raft_soundness::explained_place(after, g, l);
        assert(sound(after));
        if i == l {
            raft_guarantees::holds_own_log(c, l);
        }
        if after.nodes[i].commit_index == after.nodes[l].commit_index {
            raft_guarantees::equal_commits_equal_states(after, i, l);
        }
    }
}

/// Nobody keeps files, or the files stand for all members.
pub open spec fn disks_hold(c: ClusterV, l: int) -> bool {
    without_files(c) || exists|h: History| #[trigger] all_keep(c, h, l)
}

/// The leader's disk, where it keeps files, takes what it makes of a command.
pub open spec fn can_take(c: ClusterV, command: CommandV) -> bool {
    without_files(c) || (kept(c) && wal_codec::recordable(c.next_entry(command)))
}

/// A round reaches all who follow, and no disk fails.
proof fn rounds_reach_followers(c: ClusterV, h: History, l: int)
    requires
        h.explains(c, l),
        c.available(l),
        disks_hold(c, l),
    ensures
        ({
            let (after, result) = c.replicate_from(l, 0, c.nodes.len() as int, 0);
            &&& result is Ok
            &&& brought_up(c, after, l, 0, c.nodes.len() as int)
            &&& disks_hold(after, l)
        }),
{
    let end = c.nodes.len() as int;
    many_are_brought_up(c, h, l, 0, end, 0);
    if without_files(c) {
        let after = c.replicate_from(l, 0, end, 0).0;
        assert forall|i: int| 0 <= i < after.nodes.len() implies (#[trigger] after.nodes[i]).wal
            is None by {
            assert(c.nodes[i].wal is None);
        }
    } else {
        let k = choose|k: History| #[trigger] all_keep(c, k, l);
        let g = raft_persistence::replicating_from_keeps(c, k, l, 0, end, 0);
    }
}

/// The leader takes a command into its log.
#[verifier::rlimit(40)]
proof fn leaders_take_commands(c: ClusterV, h: History, l: int, command: CommandV) -> (after:
    History)
    requires
        h.explains(c, l),
        c.available(l),
        c.nodes[l].log.last_index() + 1 < u64::MAX,
        can_take(c, command),
    ensures
        ({
            let entry = c.next_entry(command);
            let (node, result) = c.nodes[l].append_local(command, c.nodes[l].current_term);
            let written = c.with_node(l, node).with_progress(l, entry.index);
            &&& result == Ok::<LogEntryV, DbErrorV>(entry)
            &&& after.explains(written, l)
            &&& disks_hold(written, l)
            &&& node.log.last_index() == entry.index
            &&& node.log.term_at(entry.index) == Some(entry.term)
            &&& node.log.get(entry.index) == Some(entry)
            &&& node.role == Role::Leader
            &&& node.current_term == c.nodes[l].current_term
            &&& node.commit_index == c.nodes[l].commit_index
        }),
{
    raft_soundness::explained_place(c, h, l);
    raft_soundness::explained_member(c, h, l, l);
    raft_history::rest_shows(c.nodes[l].log, h.logs[l]);
    let entry = c.next_entry(command);
    let leader = c.nodes[l];
    let (node, result) = leader.append_local(command, leader.current_term);
    let g = raft_steps::writing_is_explained(c, h, l, command);
    if without_files(c) {
        assert(leader.wal is None);
        let written = c.with_node(l, node).with_progress(l, entry.index);
        assert forall|i: int| 0 <= i < written.nodes.len() implies (
        #[trigger] written.nodes[i]).wal is None by {
            assert(c.nodes[i].wal is None);
        }
    } else {
        let k = choose|k: History| #[trigger] all_keep(c, k, l);
        let one = seq![entry];
        assert(wal_codec::entry_error(entry) is None);
        assert(one.last() == entry);
        assert(one.drop_last() =~= Seq::empty());
        assert(wal_codec::log_error(one) is None) by {
            reveal_with_fuel(wal_codec::log_error, 2);
        }
        let k2 = raft_persistence::leading_entries_keep(c, k, l, command);
    }
    let written = c.with_node(l, node).with_progress(l, entry.index);
    raft_soundness::explained_member(written, g, l, l);
    raft_history::rest_shows(node.log, g.logs[l]);
    g
}

/// Numbers that all marked ones reach.
proof fn marks_reach(numbers: Seq<Index>, least: Index, marks: Seq<bool>)
    requires
        numbers.len() == marks.len(),
        forall|k: int| 0 <= k < numbers.len() && #[trigger] marks[k] ==> numbers[k] >= least,
    ensures
        raft_model::count_reaching(numbers, least) >= tally(marks),
    decreases numbers.len(),
{
    if numbers.len() > 0 {
        let n = numbers.len() - 1;
        assert forall|k: int| 0 <= k < n && #[trigger] marks.drop_last()[k] implies
            numbers.drop_last()[k] >= least by {
            assert(marks[k]);
        }
        marks_reach(numbers.drop_last(), least, marks.drop_last());
        assert(marks[n] ==> numbers[n] >= least);
    }
}

/// What a majority is known to hold of the leader's own term is committed.
proof fn majorities_commit(c: ClusterV, h: History, l: int, marks: Seq<bool>) -> (after: History)
    requires
        h.explains(c, l),
        c.available(l),
        disks_hold(c, l),
        marks.len() == c.nodes.len(),
        tally(marks) >= c.quorum(),
        forall|i: int|
            0 <= i < c.nodes.len() && #[trigger] marks[i] ==> c.match_index[i]
                >= c.nodes[l].log.last_index(),
        c.nodes[l].commit_index < c.nodes[l].log.last_index(),
        c.nodes[l].log.term_at(c.nodes[l].log.last_index()) == Some(c.nodes[l].current_term),
    ensures
        ({
            let d = c.advance_commit(l);
            &&& after.explains(d, l)
            &&& disks_hold(d, l)
            &&& d.nodes[l].commit_index == c.nodes[l].log.last_index()
            &&& d.nodes[l].log == c.nodes[l].log
            &&& d.nodes[l].current_term == c.nodes[l].current_term
            &&& d.available(l)
            &&& d == c.with_node(l, d.nodes[l])
        }),
{
    raft_soundness::explained_place(c, h, l);
    let last = c.nodes[l].log.last_index();
    marks_reach(c.match_index, last, marks);
    raft_laws::commit_point_is_greatest(c, l, last);
    assert(raft_model::count_reaching(c.match_index, last) >= c.quorum());
    let g = raft_steps::advancing_is_explained(c, h, l);
    let d = c.advance_commit(l);
    if without_files(c) {
        assert(c.nodes[l].wal is None);
        assert forall|i: int| 0 <= i < d.nodes.len() implies (#[trigger] d.nodes[i]).wal is None by {
            assert(c.nodes[i].wal is None);
        }
    } else {
        let k = choose|k: History| #[trigger] all_keep(c, k, l);
        let k2 = raft_persistence::advancing_keeps(c, k, l);
    }
    g
}

/// A proposal to a leader that a majority follows is committed, by everybody who
/// follows it: whatever their logs held before, they end with the new entry
/// committed, and in the leader's state.
#[verifier::rlimit(40)]
pub proof fn majorities_commit_proposals(c: ClusterV, command: CommandV)
    requires
        sound(c),
        c.available(c.leader_at()),
        c.log_room(1),
        tally(followers(c, c.leader_at())) >= c.quorum(),
        can_take(c, command),
    ensures
        ({
            let l = c.leader_at();
            let (after, result) = c.propose(command);
            let entry = c.next_entry(command);
            let leader = after.nodes[l];
            &&& after.leader_at() == l
            &&& result matches Ok(outcome) && outcome.index == entry.index
                && outcome.committed_nodes >= tally(followers(c, l))
            &&& leader.log.get(entry.index) == Some(entry)
            &&& leader.commit_index == entry.index
            &&& forall|i: int|
                0 <= i < c.nodes.len() && follows(c, l, i) ==> (
                #[trigger] after.nodes[i]).commit_index == entry.index && after.nodes[i].state
                    == leader.state
        }),
{
    reveal(ClusterV::propose);
    let l = c.leader_at();
    let h = choose|h: History| #[trigger] h.explains(c, l);
    raft_soundness::explained_place(c, h, l);
    raft_soundness::explained_member(c, h, l, l);
    raft_history::rest_shows(c.nodes[l].log, h.logs[l]);
    let entry = c.next_entry(command);
    let leader = c.nodes[l];
    let end = c.nodes.len() as int;
    let marks = followers(c, l);
    let h1 = leaders_take_commands(c, h, l, command);
    let node = leader.append_local(command, leader.current_term).0;
    let written = c.with_node(l, node).with_progress(l, entry.index);
    rounds_reach_followers(written, h1, l);
    let h2 = raft_steps::replicating_from_is_explained(written, h1, l, 0, end, 0);
    let sent = written.replicate_from(l, 0, end, 0).0;
    assert forall|i: int| 0 <= i < sent.nodes.len() && #[trigger] marks[i] implies
        sent.match_index[i] >= sent.nodes[l].log.last_index() by {
        assert(follows(written, l, i));
        assert(i != l ==> caught_up(written.nodes[i], sent.nodes[i], written.nodes[l]));
    }
    let h3 = majorities_commit(sent, h2, l, marks);
    let advanced = sent.advance_commit(l);
    rounds_reach_followers(advanced, h3, l);
    let h4 = raft_steps::replicating_from_is_explained(advanced, h3, l, 0, end, 0);
    let told = advanced.replicate_from(l, 0, end, 0).0;
    raft_soundness::explained_place(told, h4, l);
    assert(sound(told));
    assert forall|i: int| 0 <= i < c.nodes.len() && follows(c, l, i) implies (
    #[trigger] told.nodes[i]).commit_index == entry.index && told.nodes[i].state
        == told.nodes[l].state by {
        assert(follows(written, l, i));
        if i != l {
            assert(caught_up(written.nodes[i], sent.nodes[i], written.nodes[l]));
            assert(advanced.nodes[i] == sent.nodes[i]);
            assert(follows(advanced, l, i));
            assert(caught_up(advanced.nodes[i], told.nodes[i], advanced.nodes[l]));
        }
        raft_guarantees::commits_lie_in_the_log(told, i);
        raft_guarantees::equal_commits_equal_states(told, i, l);
    }
    let reached = raft_model::commits(told.nodes);
    marks_reach(reached, entry.index, marks);
    raft_model::counts_are_bounded(reached, entry.index);
}

} // verus!
