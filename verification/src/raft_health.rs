//! What a cluster does while a connected majority keeps up with its leader.
use vstd::prelude::*;

use crate::memlog;
use crate::memlog::MemLogV;
use crate::raft_durability;
use crate::raft_laws;
use crate::raft_model;
use crate::raft_model::{ClusterV, HeartbeatRoundOutcome};
use crate::raft_node;
use crate::raft_node::{NodeV, Role};
use crate::raft_node_laws;
use crate::state_machine;
use crate::state_machine::KvMap;
use crate::types::{CommandV, DbErrorV, Index, LogEntryV, NodeId, Term};
use crate::wal_codec;

verus! {

/// The member at `i` is connected, is not in a later term than the leader at
/// `l`, has the log, commit index and state, and is sent next what comes after
/// its log.
pub open spec fn stands(
    c: ClusterV,
    l: int,
    i: int,
    log: MemLogV,
    commit: Index,
    state: KvMap,
) -> bool {
    &&& c.connected[i]
    &&& c.nodes[i].current_term <= c.nodes[l].current_term
    &&& c.nodes[i].log == log
    &&& c.nodes[i].commit_index == commit
    &&& c.nodes[i].state == state
    &&& c.next_index[i] == log.last_index() + 1
}

/// How many of the first `k` members are connected.
pub open spec fn connected_among(connected: Seq<bool>, k: int) -> int
    decreases k,
{
    if k <= 0 {
        0
    } else if connected[k - 1] {
        connected_among(connected, k - 1) + 1
    } else {
        connected_among(connected, k - 1)
    }
}

/// How many members are connected.
pub open spec fn connected_members(c: ClusterV) -> int {
    connected_among(c.connected, c.nodes.len() as int)
}

/// A leader in office that a majority follows: the leader and enough others are
/// connected, and all who are have the leader's log, commit index and state.
pub open spec fn healthy(c: ClusterV) -> bool {
    let l = c.leader_at();
    let leader = c.nodes[l];
    &&& c.wf()
    &&& c.available(l)
    &&& leader.commit_index <= leader.log.last_index()
    &&& connected_members(c) >= c.quorum()
    &&& forall|i: int|
        0 <= i < c.nodes.len() && i != l && c.connected[i] ==> #[trigger] stands(
            c,
            l,
            i,
            leader.log,
            leader.commit_index,
            leader.state,
        )
}

impl ClusterV {
    /// The entry that the leader makes of a command.
    pub open spec fn next_entry(self, command: CommandV) -> LogEntryV {
        let leader = self.nodes[self.leader_at()];
        LogEntryV {
            term: leader.current_term,
            index: (leader.log.last_index() + 1) as u64,
            command,
        }
    }
}

/// The commit index of a member after it was told the leader's.
pub open spec fn told_commit(own: Index, leader: Index, last: Index) -> Index {
    if raft_node::smaller(leader, last) <= own {
        own
    } else {
        raft_node::smaller(leader, last)
    }
}

/// The state of a member after it was told the leader's commit index.
pub open spec fn told_state(
    state: KvMap,
    log: MemLogV,
    own: Index,
    leader: Index,
) -> KvMap {
    state_machine::replayed(
        state,
        log.entries.subrange(
            own - log.base_index,
            told_commit(own, leader, log.last_index()) - log.base_index,
        ),
    )
}

/// A log without its last entries agrees with them wherever it has anything.
proof fn all_entries_are_new(log: MemLogV, entries: Seq<LogEntryV>)
    requires
        log.wf(),
        memlog::contiguous(entries, log.last_index() + 1),
    ensures
        raft_node::first_new_entry(log, entries, 0) == (0int, false),
{
    if entries.len() > 0 {
        assert(log.last_index() == log.base_index + log.entries.len());
        assert(entries[0].index == log.last_index() + 1);
    }
}

/// A leader's message that a member follows: the member takes what comes after
/// its log and is told the leader's commit index.
proof fn taking(
    node: NodeV,
    term: Term,
    entries: Seq<LogEntryV>,
    prev_term: Term,
    leader_commit: Index,
)
    requires
        node.wf(),
        node.wal is None || wal_codec::log_error(entries) is None,
        node.current_term <= term,
        memlog::contiguous(entries, node.log.last_index() + 1),
        node.log.last_index() > 0 ==> node.log.term_at(node.log.last_index()) == Some(prev_term),
        node.commit_index <= node.log.last_index(),
    ensures
        ({
            let (after, result) = node.append_entries(
                term,
                node.log.last_index(),
                prev_term,
                entries,
                leader_commit,
            );
            let log = node.log.appended(entries);
            &&& result == Ok::<bool, DbErrorV>(true)
            &&& after.id == node.id
            &&& after.wal is None <==> node.wal is None
            &&& after.current_term <= term
            &&& after.log == log
            &&& after.commit_index == told_commit(
                node.commit_index,
                leader_commit,
                log.last_index(),
            )
            &&& after.state == told_state(node.state, log, node.commit_index, leader_commit)
        }),
{
    reveal(NodeV::append_entries);
    raft_node_laws::becoming_follower_keeps(node, term);
    let heeded = node.heed(term);
    assert(heeded.log == node.log && (heeded.wal is None <==> node.wal is None) && heeded.state == node.state
        && heeded.commit_index == node.commit_index);
    assert(node.log.last_index() == node.log.base_index + node.log.entries.len());
    all_entries_are_new(node.log, entries);
    let log = node.log.appended(entries);
    assert(entries.skip(0) =~= entries);
    let merged = heeded.merge(entries).0;
    if entries.len() == 0 {
        assert(log =~= node.log);
        assert(log.entries =~= node.log.entries);
    }
    assert(merged.log == log);
    let own = node.commit_index;
    if raft_node::smaller(leader_commit, log.last_index()) <= own {
        assert(log.entries.subrange(own - log.base_index, own - log.base_index) =~= Seq::empty());
    }
}

/// Replicating to a member that stands right behind the leader brings it to
/// where the leader is.
proof fn feeding(c: ClusterV, l: int, i: int, log: MemLogV, commit: Index, state: KvMap)
    requires
        c.wf(),
        0 <= l < c.nodes.len(),
        0 <= i < c.nodes.len(),
        i != l,
        c.available(l),
        stands(c, l, i, log, commit, state),
        commit <= log.last_index(),
        c.nodes[l].log.base_index == log.base_index,
        c.nodes[l].log.base_term == log.base_term,
        log.entries.len() <= c.nodes[l].log.entries.len(),
        log.entries == c.nodes[l].log.entries.take(log.entries.len() as int),
        c.nodes[i].wal is None || wal_codec::log_error(
            c.nodes[l].log.entries.skip(log.entries.len() as int),
        ) is None,
    ensures
        ({
            let (after, result) = c.replicate(l, i);
            let leader = c.nodes[l];
            let last = leader.log.last_index();
            &&& result == Ok::<bool, DbErrorV>(true)
            &&& after.wf()
            &&& raft_laws::advances(c, after)
            &&& stands(
                after,
                l,
                i,
                leader.log,
                told_commit(commit, leader.commit_index, last),
                told_state(state, leader.log, commit, leader.commit_index),
            )
            &&& after.match_index == c.match_index.update(i, last)
            &&& after.leader_id == c.leader_id
            &&& after.connected == c.connected
            &&& after.nodes.len() == c.nodes.len()
            &&& after.next_index.len() == c.next_index.len()
            &&& after.clock_ticks == c.clock_ticks
            &&& after.current_term == c.current_term
            &&& after.nodes[i].wal is None <==> c.nodes[i].wal is None
            &&& raft_durability::durable(c.nodes[i]) && raft_durability::all_recordable(
                leader.log.entries.skip(log.entries.len() as int),
            ) ==> raft_durability::durable(after.nodes[i])
            &&& forall|k: int|
                0 <= k < c.nodes.len() && k != i ==> (#[trigger] after.nodes[k]) == c.nodes[k]
                    && after.next_index[k] == c.next_index[k]
        }),
{
    reveal(ClusterV::replicate);
    raft_laws::valid_is_bounded(c);
    raft_laws::replicating_keeps(c, l, i, u64::MAX, (u64::MAX - 1) as u64);
    let leader = c.nodes[l];
    let node = c.nodes[i];
    assert(c.member_ok(i));
    assert(c.member_ok(l));
    let prev = log.last_index();
    let next = c.next_index[i];
    let entries = leader.log.entries_from(next);
    let n = log.entries.len() as int;
    assert(prev == log.base_index + n);
    assert(leader.log.last_index() == log.base_index + leader.log.entries.len());
    assert(leader.log.before(next) == n);
    assert(entries == leader.log.entries.skip(n));
    assert(memlog::contiguous(entries, prev + 1)) by {
        assert forall|k: int| 0 <= k < entries.len() implies (#[trigger] entries[k]).index == prev
            + 1 + k by {
            assert(entries[k] == leader.log.entries[n + k]);
        }
    }
    assert(log.entries + entries =~= leader.log.entries);
    assert(log.appended(entries) == leader.log);
    if n > 0 {
        assert(log.entries[n - 1] == leader.log.entries[n - 1]);
    }
    let prev_term = if prev == 0 {
        Some(0)
    } else {
        leader.log.term_at(prev)
    };
    assert(prev_term is Some);
    assert(prev > 0 ==> log.term_at(prev) == leader.log.term_at(prev));
    taking(node, leader.current_term, entries, prev_term->0, leader.commit_index);
    if raft_durability::durable(node) && raft_durability::all_recordable(entries) {
        all_entries_are_new(log, entries);
        raft_durability::appending_stays_durable(
            node,
            leader.current_term,
            prev,
            prev_term->0,
            entries,
            leader.commit_index,
        );
    }
    let fed = node.append_entries(
        leader.current_term,
        prev,
        prev_term->0,
        entries,
        leader.commit_index,
    ).0;
    assert(c.catch_up(l, i, false) == (
        c.with_node(i, fed).with_progress(i, fed.log.last_index()),
        Ok::<bool, DbErrorV>(true),
    ));
}

/// The log is the leader's without some of its last entries.
pub open spec fn is_prefix(log: MemLogV, whole: MemLogV) -> bool {
    &&& whole.base_index == log.base_index
    &&& whole.base_term == log.base_term
    &&& log.entries.len() <= whole.entries.len()
    &&& log.entries == whole.entries.take(log.entries.len() as int)
}

/// The connected members up to place `k` stand where the leader at `l` is, and the others
/// where they stood.
spec fn fed_through(
    c: ClusterV,
    l: int,
    k: int,
    log: MemLogV,
    commit: Index,
    state: KvMap,
) -> bool {
    let leader = c.nodes[l];
    let last = leader.log.last_index();
    &&& forall|i: int|
        0 <= i < k && i != l && c.connected[i] ==> #[trigger] stands(
            c,
            l,
            i,
            leader.log,
            told_commit(commit, leader.commit_index, last),
            told_state(state, leader.log, commit, leader.commit_index),
        )
    &&& forall|i: int|
        0 <= i < k && i != l && c.connected[i] ==> #[trigger] c.match_index[i] == last
    &&& forall|i: int|
        k <= i < c.nodes.len() && i != l && c.connected[i] ==> #[trigger] stands(
            c,
            l,
            i,
            log,
            commit,
            state,
        )
}

/// Every member that keeps files can record the entries.
pub open spec fn can_record(c: ClusterV, entries: Seq<LogEntryV>) -> bool {
    wal_codec::log_error(entries) is None || forall|i: int|
        0 <= i < c.nodes.len() ==> (#[trigger] c.nodes[i]).wal is None
}

/// Every member keeps files, and they stand for it.
pub open spec fn all_durable(c: ClusterV) -> bool {
    forall|i: int| 0 <= i < c.nodes.len() ==> raft_durability::durable(#[trigger] c.nodes[i])
}

/// What replicating to the others keeps of the cluster.
spec fn same_leader(c: ClusterV, after: ClusterV, l: int) -> bool {
    &&& forall|i: int|
        0 <= i < c.nodes.len() ==> ((#[trigger] after.nodes[i]).wal is None <==> c.nodes[i].wal
            is None)
    &&& after.nodes.len() == c.nodes.len()
    &&& after.nodes[l] == c.nodes[l]
    &&& after.match_index[l] == c.match_index[l]
    &&& after.next_index[l] == c.next_index[l]
    &&& after.leader_id == c.leader_id
    &&& after.connected == c.connected
    &&& after.clock_ticks == c.clock_ticks
    &&& after.current_term == c.current_term
}

/// Replicating to all connected members, which stand right behind the leader,
/// brings them to where the leader is, and all of them acknowledge.
proof fn feeding_all(
    c: ClusterV,
    l: int,
    k: int,
    acks: int,
    log: MemLogV,
    commit: Index,
    state: KvMap,
)
    requires
        c.wf(),
        0 <= l < c.nodes.len(),
        0 <= k <= c.nodes.len(),
        c.available(l),
        commit <= log.last_index(),
        is_prefix(log, c.nodes[l].log),
        can_record(c, c.nodes[l].log.entries.skip(log.entries.len() as int)),
        fed_through(c, l, k, log, commit, state),
    ensures
        ({
            let (after, result) = c.replicate_from(l, k, c.nodes.len() as int, acks);
            &&& after.wf()
            &&& same_leader(c, after, l)
            &&& fed_through(after, l, after.nodes.len() as int, log, commit, state)
            &&& all_durable(c) && raft_durability::all_recordable(
                c.nodes[l].log.entries.skip(log.entries.len() as int),
            ) ==> all_durable(after)
            &&& result == Ok::<int, DbErrorV>(
                acks + connected_members(c) - connected_among(c.connected, k) - (if k <= l {
                    1int
                } else {
                    0int
                }),
            )
        }),
    decreases c.nodes.len() - k,
{
    if k < c.nodes.len() {
        if k == l {
            assert(fed_through(c, l, k + 1, log, commit, state));
            feeding_all(c, l, k + 1, acks, log, commit, state);
        } else if !c.connected[k] {
            reveal(ClusterV::replicate);
            assert(fed_through(c, l, k + 1, log, commit, state));
            feeding_all(c, l, k + 1, acks, log, commit, state);
        } else {
            assert(stands(c, l, k, log, commit, state));
            feeding(c, l, k, log, commit, state);
            let d = c.replicate(l, k).0;
            let leader = c.nodes[l];
            let last = leader.log.last_index();
            assert(d.nodes[l] == c.nodes[l]);
            assert forall|i: int|
                0 <= i < k + 1 && i != l && d.connected[i] implies #[trigger] stands(
                d,
                l,
                i,
                leader.log,
                told_commit(commit, leader.commit_index, last),
                told_state(state, leader.log, commit, leader.commit_index),
            ) by {
                if i != k {
                    assert(stands(
                        c,
                        l,
                        i,
                        leader.log,
                        told_commit(commit, leader.commit_index, last),
                        told_state(state, leader.log, commit, leader.commit_index),
                    ));
                    assert(d.nodes[i] == c.nodes[i]);
                }
            }
            assert forall|i: int|
                k + 1 <= i < d.nodes.len() && i != l && d.connected[i] implies #[trigger] stands(
                d,
                l,
                i,
                log,
                commit,
                state,
            ) by {
                assert(stands(c, l, i, log, commit, state));
                assert(d.nodes[i] == c.nodes[i]);
            }
            assert(fed_through(d, l, k + 1, log, commit, state));
            assert(can_record(d, d.nodes[l].log.entries.skip(log.entries.len() as int)));
            let fresh = leader.log.entries.skip(log.entries.len() as int);
            if all_durable(c) && raft_durability::all_recordable(fresh) {
                assert forall|i: int| 0 <= i < d.nodes.len() implies raft_durability::durable(
                    #[trigger] d.nodes[i],
                ) by {
                    assert(raft_durability::durable(c.nodes[i]));
                }
            }
            feeding_all(d, l, k + 1, acks + 1, log, commit, state);
        }
    }
}

/// Where the numbers of all connected members reach a least one, at least those
/// count.
proof fn connected_reach(numbers: Seq<Index>, connected: Seq<bool>, least: Index, k: int)
    requires
        0 <= k <= numbers.len(),
        forall|i: int| 0 <= i < k && connected[i] ==> #[trigger] numbers[i] >= least,
    ensures
        raft_model::count_reaching(numbers.take(k), least) >= connected_among(connected, k),
    decreases k,
{
    if k > 0 {
        connected_reach(numbers, connected, least, k - 1);
        assert(numbers.take(k).drop_last() =~= numbers.take(k - 1));
        assert(numbers.take(k).last() == numbers[k - 1]);
    }
}

/// No more members are connected than there are.
pub proof fn connected_are_members(connected: Seq<bool>, k: int)
    requires
        0 <= k,
    ensures
        0 <= connected_among(connected, k) <= k,
    decreases k,
{
    if k > 0 {
        connected_are_members(connected, k - 1);
    }
}

/// In a healthy cluster a round of heartbeats is acknowledged by every connected
/// member, and the cluster stays healthy, with the same leader.
pub proof fn healthy_heartbeats_reach_a_quorum(c: ClusterV)
    requires
        healthy(c),
    ensures
        ({
            let (after, result) = c.heartbeat_round();
            let leader = c.nodes[c.leader_at()];
            &&& healthy(after)
            &&& after.leader_at() == c.leader_at()
            &&& after.nodes[after.leader_at()] == leader
            &&& result == Ok::<HeartbeatRoundOutcome, DbErrorV>(
                HeartbeatRoundOutcome {
                    term: leader.current_term,
                    leader_id: c.leader_id,
                    acknowledged_nodes: connected_members(c) as usize,
                    quorum: c.quorum() as usize,
                },
            )
        }),
{
    reveal(ClusterV::heartbeat_round);
    raft_laws::leader_has_place(c);
    connected_are_members(c.connected, c.nodes.len() as int);
    raft_laws::valid_is_bounded(c);
    raft_laws::heartbeats_keep(c, u64::MAX, (u64::MAX - 1) as u64);
    let l = c.leader_at();
    let leader = c.nodes[l];
    assert(leader.log.entries.take(leader.log.entries.len() as int) =~= leader.log.entries);
    assert(leader.log.entries.skip(leader.log.entries.len() as int) =~= Seq::empty());
    feeding_all(c, l, 0, 1, leader.log, leader.commit_index, leader.state);
    let after = c.heartbeat_round().0;
    assert(c.member_ok(l));
    nothing_to_tell(leader);
    assert forall|i: int|
        0 <= i < after.nodes.len() && i != l && after.connected[i] implies #[trigger] stands(
        after,
        l,
        i,
        leader.log,
        leader.commit_index,
        leader.state,
    ) by {
        assert(stands(
            after,
            l,
            i,
            leader.log,
            told_commit(leader.commit_index, leader.commit_index, leader.log.last_index()),
            told_state(leader.state, leader.log, leader.commit_index, leader.commit_index),
        ));
    }
}

/// A member that has committed what the leader has learns nothing new of it.
proof fn nothing_to_tell(leader: NodeV)
    requires
        leader.wf(),
        leader.commit_index <= leader.log.last_index(),
    ensures
        told_commit(leader.commit_index, leader.commit_index, leader.log.last_index())
            == leader.commit_index,
        told_state(leader.state, leader.log, leader.commit_index, leader.commit_index)
            == leader.state,
{
    let at = leader.commit_index - leader.log.base_index;
    assert(leader.log.entries.subrange(at, at) =~= Seq::empty());
}

/// In a healthy cluster a proposal that the members with files can record is
/// committed by every connected member: all of them have the new entry at the
/// end of their logs and the state that comes of everything in it, and the
/// cluster stays healthy, with the same leader.
pub proof fn healthy_proposals_commit(c: ClusterV, command: CommandV)
    requires
        healthy(c),
        c.log_room(1),
        can_record(c, seq![c.next_entry(command)]),
    ensures
        ({
            let (after, result) = c.propose(command);
            let leader = c.nodes[c.leader_at()];
            let index = (leader.log.last_index() + 1) as u64;
            let entry = c.next_entry(command);
            let next = after.nodes[after.leader_at()];
            &&& healthy(after)
            &&& after.leader_id == c.leader_id
            &&& next.current_term == leader.current_term
            &&& next.log == leader.log.appended(seq![entry])
            &&& next.commit_index == index
            &&& next.state == state_machine::replayed(
                leader.state,
                next.log.entries.skip(leader.commit_index - leader.log.base_index),
            )
            &&& leader.commit_index == leader.log.last_index() ==> next.state
                == state_machine::applied(leader.state, command)
            &&& result matches Ok(outcome) && outcome.index == index && outcome.committed_nodes
                == raft_model::count_reaching(raft_model::commits(after.nodes), index)
                && outcome.committed_nodes >= connected_members(c)
            &&& after.connected == c.connected
        }),
{
    reveal(ClusterV::propose);
    raft_laws::leader_has_place(c);
    raft_laws::proposing_takes_room(c, command, 1);
    let l = c.leader_at();
    let leader = c.nodes[l];
    assert(c.member_ok(l));
    let last = (leader.log.last_index() + 1) as u64;
    let entry = c.next_entry(command);
    let end = c.nodes.len() as int;
    raft_laws::writing_keeps(leader, command, leader.current_term);
    let node = leader.append_local(command, leader.current_term).0;
    let whole = leader.log.appended(seq![entry]);
    assert(node.log == whole && node.log.last_index() == last);
    let a = c.with_node(l, node);
    raft_laws::valid_is_bounded(c);
    raft_laws::replacing_keeps(c, l, node, u64::MAX, (u64::MAX - 1) as u64);
    raft_laws::tracking_keeps(a, l, 1, last);
    let written = a.with_progress(l, last);
    assert(whole.entries.take(leader.log.entries.len() as int) =~= leader.log.entries);
    assert forall|i: int|
        0 <= i < end && i != l && written.connected[i] implies #[trigger] stands(
        written,
        l,
        i,
        leader.log,
        leader.commit_index,
        leader.state,
    ) by {
        assert(stands(c, l, i, leader.log, leader.commit_index, leader.state));
    }
    assert(whole.entries.skip(leader.log.entries.len() as int) =~= seq![entry]);
    feeding_all(written, l, 0, 0, leader.log, leader.commit_index, leader.state);
    let sent = written.replicate_from(l, 0, end, 0).0;
    assert(told_commit(leader.commit_index, leader.commit_index, last) == leader.commit_index);
    let at = leader.commit_index - leader.log.base_index;
    assert(whole.entries.subrange(at, at) =~= Seq::empty());
    assert(told_state(leader.state, whole, leader.commit_index, leader.commit_index)
        == leader.state);
    assert forall|i: int| 0 <= i < end && sent.connected[i] implies #[trigger] sent.match_index[i]
        >= last by {
        if i != l {
            assert(sent.match_index[i] == last);
        }
    }
    connected_reach(sent.match_index, sent.connected, last, end);
    assert(sent.match_index.take(end) =~= sent.match_index);
    assert(whole.term_at(last) == Some(leader.current_term)) by {
        assert(whole.entries[whole.entries.len() - 1] == entry);
        assert(leader.log.last_index() == leader.log.base_index + leader.log.entries.len());
    }
    assert(sent.commit_point(l, last) == last);
    let told = sent.advance_commit(l);
    raft_laws::valid_is_bounded(sent);
    raft_laws::advancing_commit_keeps(sent, l, u64::MAX, (u64::MAX - 1) as u64);
    let next = told.nodes[l];
    assert(next == node.commit_to(last));
    assert(next.log == whole && next.commit_index == last);
    assert(whole.entries.take(whole.entries.len() as int) =~= whole.entries);
    assert forall|i: int| 0 <= i < end && i != l && told.connected[i] implies #[trigger] stands(
        told,
        l,
        i,
        whole,
        leader.commit_index,
        leader.state,
    ) by {
        assert(stands(
            sent,
            l,
            i,
            whole,
            told_commit(leader.commit_index, leader.commit_index, last),
            told_state(leader.state, whole, leader.commit_index, leader.commit_index),
        ));
    }
    assert(whole.entries.skip(whole.entries.len() as int) =~= Seq::empty());
    feeding_all(told, l, 0, 0, whole, leader.commit_index, leader.state);
    let after = told.replicate_from(l, 0, end, 0).0;
    assert(told_state(leader.state, whole, leader.commit_index, last) == next.state);
    assert forall|i: int| 0 <= i < end && i != l && after.connected[i] implies #[trigger] stands(
        after,
        l,
        i,
        whole,
        last,
        next.state,
    ) by {
        assert(stands(
            after,
            l,
            i,
            whole,
            told_commit(leader.commit_index, last, last),
            told_state(leader.state, whole, leader.commit_index, last),
        ));
    }
    raft_laws::position_is(after.nodes, after.leader_id, l);
    let reached = raft_model::commits(after.nodes);
    assert forall|i: int| 0 <= i < end && after.connected[i] implies #[trigger] reached[i]
        >= last by {
        if i != l {
            assert(stands(after, l, i, whole, last, next.state));
        }
    }
    connected_reach(reached, after.connected, last, end);
    assert(reached.take(end) =~= reached);
    raft_model::counts_are_bounded(reached, last);
    assert(whole.entries.subrange(at, last - whole.base_index) =~= whole.entries.skip(at));
    if leader.commit_index == leader.log.last_index() {
        assert(whole.entries.skip(at) =~= seq![entry]);
        assert(seq![entry].drop_last() =~= Seq::empty());
        assert(state_machine::replayed(leader.state, seq![entry]) == state_machine::applied(
            state_machine::replayed(leader.state, seq![entry].drop_last()),
            command,
        ));
    }
}

/// In a healthy cluster whose members all keep files, a proposal that can be
/// recorded is on disk with every member: what every member then restarts from
/// is what it has.
pub proof fn healthy_proposals_are_durable(c: ClusterV, command: CommandV)
    requires
        healthy(c),
        c.log_room(1),
        all_durable(c),
        wal_codec::recordable(c.next_entry(command)),
    ensures
        all_durable(c.propose(command).0),
{
    reveal(ClusterV::propose);
    raft_laws::leader_has_place(c);
    raft_laws::valid_is_bounded(c);
    let most = (u64::MAX - 1) as u64;
    let l = c.leader_at();
    let leader = c.nodes[l];
    assert(c.member_ok(l));
    let entry = c.next_entry(command);
    let last = entry.index;
    let end = c.nodes.len() as int;
    let fresh = seq![entry];
    assert(raft_durability::all_recordable(fresh));
    wal_codec::recordable_log(fresh);
    raft_durability::writing_stays_durable(leader, command, leader.current_term);
    raft_laws::writing_keeps(leader, command, leader.current_term);
    let node = leader.append_local(command, leader.current_term).0;
    let whole = leader.log.appended(fresh);
    let a = c.with_node(l, node);
    raft_laws::replacing_keeps(c, l, node, u64::MAX, most);
    raft_laws::tracking_keeps(a, l, 1, last);
    let written = a.with_progress(l, last);
    assert(all_durable(written)) by {
        assert forall|i: int| 0 <= i < end implies raft_durability::durable(#[trigger] written.nodes[i]) by {
            assert(raft_durability::durable(c.nodes[i]));
        }
    }
    assert(whole.entries.take(leader.log.entries.len() as int) =~= leader.log.entries);
    assert(whole.entries.skip(leader.log.entries.len() as int) =~= fresh);
    assert forall|i: int|
        0 <= i < end && i != l && written.connected[i] implies #[trigger] stands(
        written,
        l,
        i,
        leader.log,
        leader.commit_index,
        leader.state,
    ) by {
        assert(stands(c, l, i, leader.log, leader.commit_index, leader.state));
    }
    feeding_all(written, l, 0, 0, leader.log, leader.commit_index, leader.state);
    let sent = written.replicate_from(l, 0, end, 0).0;
    let at = leader.commit_index - leader.log.base_index;
    assert(whole.entries.subrange(at, at) =~= Seq::empty());
    assert(told_state(leader.state, whole, leader.commit_index, leader.commit_index)
        == leader.state);
    raft_laws::valid_is_bounded(sent);
    raft_laws::advancing_commit_keeps(sent, l, u64::MAX, most);
    let told = sent.advance_commit(l);
    assert(sent.member_ok(l));
    raft_laws::commit_point_is_greatest(sent, l, last);
    let point = sent.commit_point(l, last);
    assert(raft_durability::durable(sent.nodes[l]));
    raft_durability::committing_stays_durable(sent.nodes[l], point);
    assert(all_durable(told)) by {
        assert forall|i: int| 0 <= i < end implies raft_durability::durable(#[trigger] told.nodes[i]) by {
            assert(raft_durability::durable(sent.nodes[i]));
        }
    }
    assert(whole.entries.take(whole.entries.len() as int) =~= whole.entries);
    assert(whole.entries.skip(whole.entries.len() as int) =~= Seq::empty());
    assert forall|i: int| 0 <= i < end && i != l && told.connected[i] implies #[trigger] stands(
        told,
        l,
        i,
        whole,
        leader.commit_index,
        leader.state,
    ) by {
        assert(stands(
            sent,
            l,
            i,
            whole,
            told_commit(leader.commit_index, leader.commit_index, last),
            told_state(leader.state, whole, leader.commit_index, leader.commit_index),
        ));
    }
    feeding_all(told, l, 0, 0, whole, leader.commit_index, leader.state);
}

/// A member that has nothing yet, in a term.
spec fn is_fresh(node: NodeV, term: Term) -> bool {
    node == NodeV::fresh(node.id, Role::Follower, term)
}

proof fn members_without_files_are_fresh(ids: Seq<NodeId>, k: nat)
    ensures
        raft_model::restored_members(ids, None, k) matches Ok((members, term)) && term == 1
            && members.len() == k && forall|i: int|
            0 <= i < members.len() ==> #[trigger] is_fresh(members[i], 1),
    decreases k,
{
    if k > 0 {
        members_without_files_are_fresh(ids, (k - 1) as nat);
    }
}

proof fn ordering_keeps_members_fresh(members: Seq<NodeV>, term: Term)
    requires
        forall|i: int| 0 <= i < members.len() ==> #[trigger] is_fresh(members[i], term),
    ensures
        raft_model::by_id(members).len() == members.len(),
        forall|i: int|
            0 <= i < members.len() ==> #[trigger] is_fresh(raft_model::by_id(members)[i], term),
    decreases members.len(),
{
    if members.len() > 0 {
        let before = members.drop_last();
        assert forall|i: int| 0 <= i < before.len() implies #[trigger] is_fresh(
            before[i],
            term,
        ) by {
            assert(is_fresh(members[i], term));
        }
        ordering_keeps_members_fresh(before, term);
        let rest = raft_model::by_id(before);
        let all = raft_model::by_id(members);
        place_for_is_a_place(rest, members.last().id, 0);
        let p = raft_model::place_for(rest, members.last().id, 0);
        assert(is_fresh(members[members.len() - 1], term));
        assert forall|i: int| 0 <= i < members.len() implies #[trigger] is_fresh(all[i], term) by {
            if i < p {
                assert(is_fresh(rest[i], term));
            } else if i > p {
                assert(is_fresh(rest[i - 1], term));
            }
        }
    }
}

/// A place in a row is one of its places or its end.
pub proof fn place_for_is_a_place(nodes: Seq<NodeV>, id: NodeId, k: int)
    requires
        0 <= k <= nodes.len(),
    ensures
        k <= raft_model::place_for(nodes, id, k) <= nodes.len(),
    decreases nodes.len() - k,
{
    if k < nodes.len() && nodes[k].id <= id {
        place_for_is_a_place(nodes, id, k + 1);
    }
}

proof fn all_are_connected(connected: Seq<bool>, k: int)
    requires
        0 <= k <= connected.len(),
        forall|i: int| 0 <= i < connected.len() ==> #[trigger] connected[i],
    ensures
        connected_among(connected, k) == k,
    decreases k,
{
    if k > 0 {
        all_are_connected(connected, k - 1);
    }
}

/// A new cluster is healthy: nobody has anything yet, and everybody is
/// connected.
pub proof fn new_clusters_are_healthy(ids: Seq<NodeId>, c: ClusterV)
    requires
        raft_model::built(ids, None) == Ok::<ClusterV, DbErrorV>(c),
        c.wf(),
    ensures
        healthy(c),
        connected_members(c) == c.nodes.len(),
        c.nodes[c.leader_at()].log == MemLogV::empty(),
        c.nodes[c.leader_at()].commit_index == 0,
        c.nodes[c.leader_at()].state == KvMap::empty(),
{
    members_without_files_are_fresh(ids, ids.len());
    let members = raft_model::restored_members(ids, None, ids.len())->Ok_0.0;
    ordering_keeps_members_fresh(members, 1);
    let nodes = raft_model::by_id(members);
    assert(c.current_term == 1) by {
        let last = nodes[raft_model::position(nodes, c.leader_id)].log.last_index();
        assert forall|i: int| 0 <= i < nodes.len() implies (#[trigger] nodes[i]).log.last_index()
            <= last by {
            assert(is_fresh(nodes[i], 1));
        }
        raft_model::short_logs_resume(nodes, 1, last);
    }
    raft_laws::leader_has_place(c);
    let l = c.leader_at();
    assert(is_fresh(nodes[l], 1));
    assert(c.nodes[l] == raft_model::enrolled(nodes[l], 1, c.leader_id));
    assert(nodes[l].id == c.leader_id);
    let at = raft_model::position(nodes, c.leader_id);
    assert(0 <= at < nodes.len() && nodes[at].id == c.leader_id);
    assert(is_fresh(nodes[at], 1));
    all_are_connected(c.connected, c.nodes.len() as int);
    assert forall|i: int| 0 <= i < c.nodes.len() && i != l implies #[trigger] stands(
        c,
        l,
        i,
        MemLogV::empty(),
        0,
        KvMap::empty(),
    ) by {
        assert(is_fresh(nodes[i], 1));
        assert(c.nodes[i] == raft_model::enrolled(nodes[i], 1, c.leader_id));
    }
}

} // verus!
