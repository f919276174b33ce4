//! What a cluster whose members keep files has on disk, whatever calls it has
//! seen: everything that a restart needs to give every member back.
use vstd::prelude::*;

use crate::memlog;
use crate::ordered;
use crate::raft_durability;
use crate::raft_durability::{all_recordable, durable};
use crate::raft_guarantees;
use crate::raft_history;
use crate::raft_history::{agree, stands_for, term_of};
use crate::raft_laws;
use crate::raft_model;
use crate::raft_model::ClusterV;
use crate::raft_node;
use crate::raft_node::{NodeV, RequestVote, Role};
use crate::raft_soundness;
use crate::raft_soundness::History;
use crate::raft_steps;
use crate::snapshot_codec;
use crate::snapshot_codec::{PersistentRaftMeta, SnapshotDataV};
use crate::state_machine;
use crate::state_machine::KvMap;
use crate::types::{CommandV, DbErrorV, Index, LogEntryV, NodeId, Term};
use crate::wal::WalV;
use crate::wal_codec;

verus! {

/// The term on disk.
pub open spec fn recorded_term(node: NodeV) -> Term {
    match node.wal {
        Some(image) => match image.load_raft_meta() {
            Ok(meta) => meta.current_term,
            Err(_) => 0,
        },
        None => 0,
    }
}

/// A member after a step that keeps the term on disk, and puts a new one there.
#[verifier::opaque]
pub open spec fn records(before: NodeV, after: NodeV) -> bool {
    &&& recorded_term(after) >= recorded_term(before)
    &&& after.current_term == before.current_term || recorded_term(after) == after.current_term
}

/// The node's files stand for it, and its snapshot can be recorded elsewhere.
#[verifier::opaque]
pub open spec fn keeps(node: NodeV) -> bool {
    &&& durable(node)
    &&& node.snapshot matches Some(data) ==> snapshot_codec::recordable_snapshot(data)
}

/// Some member has the term, or a later one, on disk.
pub open spec fn recorded_somewhere(c: ClusterV, term: Term) -> bool {
    exists|j: int| 0 <= j < c.nodes.len() && recorded_term(#[trigger] c.nodes[j]) >= term
}

/// No member is in a later term than the first but that one is on disk.
#[verifier::opaque]
pub open spec fn terms_recorded(c: ClusterV) -> bool {
    forall|i: int|
        0 <= i < c.nodes.len() ==> (#[trigger] c.nodes[i]).current_term <= 1 || recorded_somewhere(
            c,
            c.nodes[i].current_term,
        )
}

/// All members keep their files.
pub open spec fn members_keep(c: ClusterV) -> bool {
    &&& forall|i: int| 0 <= i < c.nodes.len() ==> keeps(#[trigger] c.nodes[i])
    &&& terms_recorded(c)
}

/// All members keep their files, and a history stands behind them whose entries
/// can all be recorded.
pub open spec fn all_keep(c: ClusterV, h: History, l: int) -> bool {
    &&& h.explains(c, l)
    &&& h.recordable()
    &&& members_keep(c)
}

/// A cluster whose files stand for all of its members.
pub open spec fn kept(c: ClusterV) -> bool {
    exists|h: History| #[trigger] all_keep(c, h, c.leader_at())
}

proof fn following_keeps(node: NodeV, term: Term)
    requires
        keeps(node),
    ensures
        keeps(node.become_follower(term)),
        records(node, node.become_follower(term)),
{
    reveal(keeps);
    reveal(records);
    raft_durability::following_stays_durable(node, term);
    if term > node.current_term {
        snapshot_codec::meta_reads_back(
            PersistentRaftMeta { current_term: term, voted_for: None },
        );
    }
}

proof fn standing_keeps(node: NodeV)
    requires
        keeps(node),
        node.current_term < u64::MAX,
    ensures
        keeps(node.become_candidate()),
        records(node, node.become_candidate()),
{
    reveal(keeps);
    reveal(records);
    raft_durability::standing_stays_durable(node);
    snapshot_codec::meta_reads_back(
        PersistentRaftMeta {
            current_term: (node.current_term + 1) as u64,
            voted_for: Some(node.id),
        },
    );
}

proof fn voting_keeps(node: NodeV, request: RequestVote)
    requires
        keeps(node),
    ensures
        keeps(node.request_vote(request).0),
        records(node, node.request_vote(request).0),
{
    reveal(keeps);
    reveal(records);
    raft_durability::voting_stays_durable(node, request);
    following_keeps(node, request.term);
    reveal(NodeV::request_vote);
}

proof fn committing_keeps(node: NodeV, index: Index)
    requires
        keeps(node),
        index <= node.log.last_index(),
    ensures
        keeps(node.commit_to(index)),
        records(node, node.commit_to(index)),
{
    reveal(keeps);
    reveal(records);
    raft_durability::committing_stays_durable(node, index);
}

/// The pairs of a state that recordable entries build.
proof fn built_states_sort(entries: Seq<LogEntryV>) -> (pairs: Seq<(Seq<char>, Seq<char>)>)
    requires
        all_recordable(entries),
    ensures
        ordered::ascending(pairs),
        ordered::map_of(pairs) == state_machine::replayed(KvMap::empty(), entries),
        forall|key: Seq<char>|
            #![trigger state_machine::replayed(KvMap::empty(), entries)[key]]
            state_machine::replayed(KvMap::empty(), entries).contains_key(key)
                ==> snapshot_codec::recordable_pair(
                (key, state_machine::replayed(KvMap::empty(), entries)[key]),
            ),
    decreases entries.len(),
{
    if entries.len() == 0 {
        Seq::empty()
    } else {
        let rest = entries.drop_last();
        let last = entries.last();
        assert forall|i: int| 0 <= i < rest.len() implies wal_codec::recordable(
            #[trigger] rest[i],
        ) by {
            assert(rest[i] == entries[i]);
        }
        let before = built_states_sort(rest);
        let state = state_machine::replayed(KvMap::empty(), rest);
        let next = state_machine::replayed(KvMap::empty(), entries);
        assert(wal_codec::recordable(entries[entries.len() - 1]));
        assert forall|key: Seq<char>|
            #![trigger next[key]]
            next.contains_key(key) implies snapshot_codec::recordable_pair((key, next[key])) by {
            if key != state_machine::key_of(last.command) {
                assert(next[key] == state[key]);
            }
        }
        match last.command {
            CommandV::Put { key, value } => ordered::inserting_keeps_order(before, key, value),
            CommandV::Delete { key } => ordered::removing_keeps_order(before, key),
        }
    }
}

/// A state that recordable entries build can be a snapshot, as far as its keys
/// can be counted.
proof fn built_states_can_be_recorded(entries: Seq<LogEntryV>, data: SnapshotDataV)
    requires
        all_recordable(entries),
        data.state == state_machine::replayed(KvMap::empty(), entries),
        ordered::sorted_pairs(data.state).len() <= u32::MAX,
    ensures
        snapshot_codec::recordable_snapshot(data),
{
    let some = built_states_sort(entries);
    let pairs = ordered::sorted_pairs(data.state);
    assert(ordered::ascending(some) && ordered::map_of(some) == data.state);
    assert(ordered::ascending(pairs) && ordered::map_of(pairs) == data.state);
    assert forall|i: int| 0 <= i < pairs.len() implies snapshot_codec::recordable_pair(
        #[trigger] pairs[i],
    ) by {
        ordered::map_of_value(pairs, i);
        ordered::map_of_contains(pairs, pairs[i].0);
        assert(data.state[pairs[i].0] == pairs[i].1);
        assert(pairs[i] == (pairs[i].0, pairs[i].1));
    }
}

/// A snapshot that can be made is kept.
proof fn compacting_keeps(node: NodeV, whole: Seq<LogEntryV>)
    requires
        keeps(node),
        stands_for(node, whole),
        all_recordable(whole),
        node.create_snapshot().1 is Ok,
    ensures
        keeps(node.create_snapshot().0),
        records(node, node.create_snapshot().0),
{
    reveal(keeps);
    reveal(records);
    reveal(NodeV::create_snapshot);
    raft_history::rest_shows(node.log, whole);
    if node.commit_index != 0 {
        let term = term_of(whole, node.commit_index as int);
        assert(node.log.term_at(node.commit_index) == Some(term));
        let data = SnapshotDataV {
            last_included_index: node.commit_index,
            last_included_term: term,
            state: node.state,
        };
        let entries = whole.take(node.commit_index as int);
        assert forall|i: int| 0 <= i < entries.len() implies wal_codec::recordable(
            #[trigger] entries[i],
        ) by {
            assert(entries[i] == whole[i]);
        }
        assert(node.wal is Some);
        assert(snapshot_codec::snapshot_error(data) is None);
        built_states_can_be_recorded(entries, data);
    }
    raft_durability::compacting_stays_durable(node);
}

/// A local entry that can be recorded is kept, and one that cannot is not taken.
proof fn writing_keeps(node: NodeV, command: CommandV, term: Term)
    requires
        keeps(node),
        node.log.last_index() < u64::MAX,
        ({
            let entry = LogEntryV { term, index: (node.log.last_index() + 1) as u64, command };
            wal_codec::entry_error(entry) is None ==> wal_codec::recordable(entry)
        }),
    ensures
        keeps(node.append_local(command, term).0),
        records(node, node.append_local(command, term).0),
{
    reveal(keeps);
    reveal(records);
    let entry = LogEntryV { term, index: (node.log.last_index() + 1) as u64, command };
    if wal_codec::entry_error(entry) is None {
        raft_durability::writing_stays_durable(node, command, term);
    } else {
        let one = seq![entry];
        assert(one.last() == entry);
        assert(one.drop_last() =~= Seq::empty());
        assert(wal_codec::log_error(one) is Some);
    }
}

/// What contradicts a log that agrees on everything committed contradicts
/// nothing committed.
proof fn conflicts_come_later(
    node: NodeV,
    f: Seq<LogEntryV>,
    g: Seq<LogEntryV>,
    prev: Index,
)
    requires
        stands_for(node, f),
        memlog::contiguous(g, 1),
        g.len() <= u64::MAX,
        prev <= g.len(),
        agree(f, g, node.commit_index as int),
    ensures
        raft_durability::respects_committed(node, g.skip(prev as int)),
{
    let entries = g.skip(prev as int);
    raft_history::rest_shows(node.log, f);
    raft_history::first_new_entry_is_new(node.log, entries, 0);
    let (k, conflict) = raft_node::first_new_entry(node.log, entries, 0);
    if conflict {
        let index = entries[k].index;
        assert(entries[k] == g[prev + k]);
        assert(g[prev + k].index == 1 + (prev + k));
        if index <= node.commit_index {
            raft_history::agreeing_reaches_back(f, g, node.commit_index as int, index as int);
            assert(node.log.get(index) == Some(f[index - 1]));
        }
    }
}

/// Taking a leader's entries is kept.
proof fn appending_keeps(
    node: NodeV,
    leader: NodeV,
    f: Seq<LogEntryV>,
    g: Seq<LogEntryV>,
    prev: Index,
    prev_term: Term,
)
    requires
        keeps(node),
        stands_for(node, f),
        memlog::contiguous(g, 1),
        g.len() <= u64::MAX,
        prev <= g.len(),
        agree(f, g, node.commit_index as int),
        all_recordable(g),
    ensures
        ({
            let (after, result) = node.append_entries(
                leader.current_term,
                prev,
                prev_term,
                g.skip(prev as int),
                leader.commit_index,
            );
            keeps(after) && records(node, after) && result is Ok
        }),
{
    reveal(keeps);
    reveal(records);
    let entries = g.skip(prev as int);
    assert forall|i: int| 0 <= i < entries.len() implies wal_codec::recordable(
        #[trigger] entries[i],
    ) by {
        assert(entries[i] == g[prev + i]);
    }
    assert(memlog::contiguous(entries, prev + 1)) by {
        assert forall|k: int| 0 <= k < entries.len() implies (#[trigger] entries[k]).index == prev
            + 1 + k by {
            assert(entries[k] == g[prev + k]);
        }
    }
    conflicts_come_later(node, f, g, prev);
    raft_durability::appending_stays_durable(
        node,
        leader.current_term,
        prev,
        prev_term,
        entries,
        leader.commit_index,
    );
    following_keeps(node, leader.current_term);
    reveal(NodeV::append_entries);
}

/// Taking a leader's snapshot is kept.
proof fn installing_keeps(
    node: NodeV,
    leader: NodeV,
    data: SnapshotDataV,
    f: Seq<LogEntryV>,
    g: Seq<LogEntryV>,
)
    requires
        keeps(node),
        keeps(leader),
        stands_for(node, f),
        stands_for(leader, g),
        leader.snapshot == Some(data),
        agree(f, g, node.commit_index as int),
        leader.current_term <= node.current_term,
        leader.current_term == node.current_term ==> !agree(
            f,
            g,
            leader.log.base_index as int,
        ),
    ensures
        ({
            let (after, result) = node.install_snapshot(
                leader.current_term,
                data,
                leader.commit_index,
            );
            keeps(after) && records(node, after) && result is Ok
        }),
{
    reveal(keeps);
    reveal(records);
    reveal(NodeV::install_snapshot);
    if leader.current_term == node.current_term {
        let base = leader.log.base_index as int;
        if node.commit_index >= base {
            raft_history::agreeing_reaches_back(f, g, node.commit_index as int, base);
        }
        raft_durability::installing_stays_durable(
            node,
            leader.current_term,
            data,
            leader.commit_index,
        );
        following_keeps(node, leader.current_term);
    }
}

/// With every member in a state that a step has kept, all keep their files.
proof fn steps_keep(c: ClusterV, d: ClusterV)
    requires
        members_keep(c),
        d.nodes.len() == c.nodes.len(),
        forall|k: int|
            0 <= k < c.nodes.len() ==> keeps(#[trigger] d.nodes[k]) && records(
                c.nodes[k],
                d.nodes[k],
            ),
    ensures
        members_keep(d),
{
    reveal(records);
    reveal(terms_recorded);
    assert forall|k: int| 0 <= k < d.nodes.len() implies (#[trigger] d.nodes[k]).current_term <= 1
        || recorded_somewhere(d, d.nodes[k].current_term) by {
        let term = d.nodes[k].current_term;
        assert(records(c.nodes[k], d.nodes[k]));
        if term > 1 {
            if term == c.nodes[k].current_term {
                assert(recorded_somewhere(c, term));
                let j = choose|j: int|
                    0 <= j < c.nodes.len() && recorded_term(#[trigger] c.nodes[j]) >= term;
                assert(records(c.nodes[j], d.nodes[j]));
                assert(recorded_term(d.nodes[j]) >= term);
            } else {
                assert(recorded_term(d.nodes[k]) >= term);
            }
        }
    }
}

/// With one member in a state that a step has kept, all keep their files.
proof fn one_more_keeps(c: ClusterV, i: int, node: NodeV)
    requires
        members_keep(c),
        0 <= i < c.nodes.len(),
        keeps(node),
        records(c.nodes[i], node),
    ensures
        members_keep(c.with_node(i, node)),
{
    reveal(records);
    let d = c.with_node(i, node);
    assert forall|k: int| 0 <= k < d.nodes.len() implies keeps(#[trigger] d.nodes[k]) && records(
        c.nodes[k],
        d.nodes[k],
    ) by {
        assert(keeps(c.nodes[k]));
    }
    steps_keep(c, d);
}

/// What is known of members has nothing to do with files.
proof fn tracking_keeps_files(c: ClusterV, d: ClusterV)
    requires
        members_keep(c),
        d.nodes == c.nodes,
    ensures
        members_keep(d),
{
    reveal(records);
    assert forall|k: int| 0 <= k < d.nodes.len() implies keeps(#[trigger] d.nodes[k]) && records(
        c.nodes[k],
        d.nodes[k],
    ) by {
        assert(keeps(c.nodes[k]));
    }
    steps_keep(c, d);
}

/// Catching up is kept, and never fails.
#[verifier::rlimit(40)]
proof fn catching_up_keeps(c: ClusterV, h: History, l: int, i: int, sent: bool) -> (after: History)
    requires
        all_keep(c, h, l),
        0 <= i < c.nodes.len(),
        i != l,
        c.nodes[l].role == Role::Leader,
        sent && c.nodes[i].current_term == h.reign ==> c.next_index[i]
            > c.nodes[l].log.base_index && agree(h.logs[i], h.logs[l], c.next_index[i] - 1),
    ensures
        all_keep(c.catch_up(l, i, sent).0, after, l),
        c.catch_up(l, i, sent).1 is Ok,
        c.catch_up(l, i, sent).0.nodes[l] == c.nodes[l],
    decreases
            (if sent {
                0int
            } else {
                1int
            }), c.next_index[i],
{
    let leader = c.nodes[l];
    let next = c.next_index[i];
    let f = h.logs[i];
    let g = h.logs[l];
    raft_soundness::explained_member(c, h, l, i);
    raft_history::rest_shows(leader.log, g);
    assert(all_recordable(h.logs[l]));
    assert(keeps(c.nodes[i]));
    assert(keeps(c.nodes[l]));
    let last = leader.log.last_index();
    if next > last + 1 {
        let d = c.with_next(i, (last + 1) as u64);
        raft_soundness::lowering_is_explained(c, h, l, i);
        tracking_keeps_files(c, d);
        if sent && c.nodes[i].current_term == h.reign {
            raft_history::agreeing_reaches_back(f, g, next - 1, last as int);
        }
        catching_up_keeps(d, h, l, i, sent)
    } else if next <= leader.log.base_index {
        let data = leader.snapshot->0;
        if sent {
            h
        } else {
            let h2 = raft_soundness::installing_is_explained(c, h, l, i);
            let (node, result) = c.nodes[i].install_snapshot(
                leader.current_term,
                data,
                leader.commit_index,
            );
            if leader.current_term == c.nodes[i].current_term && agree(
                f,
                g,
                leader.log.base_index as int,
            ) {
                raft_history::agreeing_reaches_back(
                    f,
                    g,
                    leader.log.base_index as int,
                    next as int,
                );
            }
            installing_keeps(c.nodes[i], leader, data, f, g);
            let d = c.with_node(i, node);
            one_more_keeps(c, i, node);
            if result->Ok_0 {
                let e = d.with_progress(i, data.last_included_index);
                tracking_keeps_files(d, e);
                let h3 = catching_up_keeps(e, h2, l, i, true);
                assert(c.catch_up(l, i, sent) == e.catch_up(l, i, true));
                h3
            } else {
                h2
            }
        }
    } else {
        let prev = (next - 1) as u64;
        let prev_term = if prev == 0 {
            Some(0)
        } else {
            leader.log.term_at(prev)
        };
        let term = term_of(g, prev as int);
        assert(prev_term == Some(term));
        let entries = leader.log.entries_from(next);
        assert(entries == g.skip(prev as int));
        let h2 = raft_soundness::appending_is_explained(c, h, l, i);
        let (node, result) = c.nodes[i].append_entries(
            leader.current_term,
            prev,
            term,
            entries,
            leader.commit_index,
        );
        appending_keeps(c.nodes[i], leader, f, g, prev, term);
        let d = c.with_node(i, node);
        one_more_keeps(c, i, node);
        if result->Ok_0 {
            tracking_keeps_files(d, d.with_progress(i, last));
            h2
        } else if next > 1 {
            let e = d.with_next(i, prev);
            tracking_keeps_files(d, e);
            let h3 = catching_up_keeps(e, h2, l, i, sent);
            assert(c.catch_up(l, i, sent) == e.catch_up(l, i, sent));
            h3
        } else {
            h2
        }
    }
}

proof fn replicating_keeps(c: ClusterV, h: History, l: int, i: int) -> (after: History)
    requires
        all_keep(c, h, l),
        0 <= i < c.nodes.len(),
    ensures
        all_keep(c.replicate(l, i).0, after, l),
        c.replicate(l, i).1 is Ok,
        c.replicate(l, i).0.nodes[l] == c.nodes[l],
{
    reveal(ClusterV::replicate);
    raft_soundness::explained_place(c, h, l);
    if i != l && c.connected[i] && c.available(l) {
        catching_up_keeps(c, h, l, i, false)
    } else {
        h
    }
}

#[verifier::rlimit(40)]
pub proof fn replicating_from_keeps(c: ClusterV, h: History, l: int, k: int, end: int, acks: int) -> (after:
    History)
    requires
        all_keep(c, h, l),
        0 <= k <= end <= c.nodes.len(),
    ensures
        all_keep(c.replicate_from(l, k, end, acks).0, after, l),
        c.replicate_from(l, k, end, acks).1 is Ok,
        c.replicate_from(l, k, end, acks).0.nodes[l] == c.nodes[l],
        c.replicate_from(l, k, end, acks).0.nodes.len() == c.nodes.len(),
    decreases end - k,
{
    if k >= end {
        h
    } else if k == l {
        replicating_from_keeps(c, h, l, k + 1, end, acks)
    } else {
        raft_soundness::explained_member(c, h, l, k);
        raft_laws::valid_is_bounded(c);
        raft_laws::replicating_keeps(c, l, k, u64::MAX, (u64::MAX - 1) as u64);
        let h2 = replicating_keeps(c, h, l, k);
        let (d, result) = c.replicate(l, k);
        let more = if result->Ok_0 {
            acks + 1
        } else {
            acks
        };
        replicating_from_keeps(d, h2, l, k + 1, end, more)
    }
}

proof fn heartbeats_keep(c: ClusterV, h: History, l: int) -> (after: History)
    requires
        all_keep(c, h, l),
    ensures
        all_keep(c.heartbeat_round().0, after, l),
{
    reveal(ClusterV::heartbeat_round);
    raft_soundness::explained_place(c, h, l);
    if c.nodes[l].role != Role::Leader {
        h
    } else {
        replicating_from_keeps(
            c,
            h,
            l,
            0,
            c.nodes.len() as int,
            if c.connected[l] {
                1
            } else {
                0
            },
        )
    }
}

/// The leader's new entry, where its disk can take it.
#[verifier::rlimit(40)]
pub proof fn leading_entries_keep(c: ClusterV, h: History, l: int, command: CommandV) -> (after: History)
    requires
        all_keep(c, h, l),
        c.nodes[l].role == Role::Leader,
        c.nodes[l].log.last_index() + 1 < u64::MAX,
        can_be_kept(c, command),
        l == c.leader_at(),
    ensures
        ({
            let (node, result) = c.nodes[l].append_local(command, c.nodes[l].current_term);
            &&& result is Err ==> all_keep(c.with_node(l, node), after, l)
            &&& result matches Ok(entry) ==> all_keep(
                c.with_node(l, node).with_progress(l, entry.index),
                after,
                l,
            )
        }),
{
    reveal(keeps);
    raft_soundness::explained_place(c, h, l);
    raft_soundness::explained_member(c, h, l, l);
    raft_history::rest_shows(c.nodes[l].log, h.logs[l]);
    let leader = c.nodes[l];
    assert(keeps(leader));
    let g = raft_steps::writing_is_explained(c, h, l, command);
    writing_keeps(leader, command, leader.current_term);
    let (node, result) = leader.append_local(command, leader.current_term);
    one_more_keeps(c, l, node);
    let d = c.with_node(l, node);
    match result {
        Err(_) => {
            raft_laws::valid_is_bounded(c);
            raft_laws::writing_keeps(leader, command, leader.current_term);
            raft_laws::replacing_keeps(c, l, node, u64::MAX, (u64::MAX - 1) as u64);
            raft_soundness::resting_is_explained(c, d, h, l);
            h
        },
        Ok(entry) => {
            tracking_keeps_files(d, d.with_progress(l, entry.index));
            assert(wal_codec::recordable(entry)) by {
                let one = seq![entry];
                assert(one.last() == entry);
                assert(one.drop_last() =~= Seq::empty());
                assert(wal_codec::log_error(one) is None);
            }
            assert(g.recordable()) by {
                assert forall|k: int| 0 <= k < g.logs.len() implies all_recordable(
                    #[trigger] g.logs[k],
                ) by {
                    assert(all_recordable(h.logs[k]));
                    if k == l {
                        let whole = h.logs[l].push(entry);
                        assert forall|n: int| 0 <= n < whole.len() implies wal_codec::recordable(
                            #[trigger] whole[n],
                        ) by {
                            if n < h.logs[l].len() {
                                assert(whole[n] == h.logs[l][n]);
                            }
                        }
                    }
                }
            }
            g
        },
    }
}

/// A command can be recorded on this machine, where its lengths fit the format.
pub open spec fn can_be_kept(c: ClusterV, command: CommandV) -> bool {
    let leader = c.nodes[c.leader_at()];
    let entry = LogEntryV {
        term: leader.current_term,
        index: (leader.log.last_index() + 1) as u64,
        command,
    };
    wal_codec::entry_error(entry) is None ==> wal_codec::recordable(entry)
}

pub proof fn advancing_keeps(c: ClusterV, h: History, l: int) -> (after: History)
    requires
        all_keep(c, h, l),
        c.nodes[l].role == Role::Leader,
    ensures
        all_keep(c.advance_commit(l), after, l),
{
    raft_soundness::explained_place(c, h, l);
    raft_soundness::explained_member(c, h, l, l);
    let leader = c.nodes[l];
    raft_history::rest_shows(leader.log, h.logs[l]);
    let g = raft_steps::advancing_is_explained(c, h, l);
    let last = leader.log.last_index();
    raft_laws::commit_point_is_greatest(c, l, last);
    let point = c.commit_point(l, last);
    assert(keeps(leader));
    committing_keeps(leader, point);
    one_more_keeps(c, l, leader.commit_to(point));
    g
}

#[verifier::rlimit(40)]
proof fn proposing_keeps(c: ClusterV, h: History, l: int, command: CommandV) -> (after: History)
    requires
        all_keep(c, h, l),
        c.log_room(1),
        can_be_kept(c, command),
    ensures
        all_keep(c.propose(command).0, after, l),
{
    reveal(ClusterV::propose);
    raft_soundness::explained_place(c, h, l);
    let leader = c.nodes[l];
    let end = c.nodes.len() as int;
    if leader.role != Role::Leader {
        h
    } else {
        let h2 = leading_entries_keep(c, h, l, command);
        let (node, result) = leader.append_local(command, leader.current_term);
        match result {
            Err(_) => h2,
            Ok(entry) => {
                let written = c.with_node(l, node).with_progress(l, entry.index);
                let h3 = replicating_from_keeps(written, h2, l, 0, end, 0);
                let sent = written.replicate_from(l, 0, end, 0).0;
                raft_soundness::explained_place(sent, h3, l);
                let h4 = advancing_keeps(sent, h3, l);
                replicating_from_keeps(sent.advance_commit(l), h4, l, 0, end, 0)
            },
        }
    }
}

proof fn collecting_keeps(
    c: ClusterV,
    i: int,
    request: RequestVote,
    k: int,
    end: int,
    votes: int,
)
    requires
        members_keep(c),
        0 <= i < c.nodes.len(),
        0 <= k <= end <= c.nodes.len(),
    ensures
        members_keep(c.collect_votes(i, request, k, end, votes).0),
    decreases end - k,
{
    if k < end {
        if k == i || !(c.connected[i] && c.connected[k]) {
            collecting_keeps(c, i, request, k + 1, end, votes);
        } else {
            assert(keeps(c.nodes[k]));
            voting_keeps(c.nodes[k], request);
            let (voter, response) = c.nodes[k].request_vote(request);
            one_more_keeps(c, k, voter);
            let d = c.with_node(k, voter);
            if response.term > request.term {
                assert(keeps(d.nodes[i]));
                following_keeps(d.nodes[i], response.term);
                one_more_keeps(d, i, d.nodes[i].become_follower(response.term));
                tracking_keeps_files(
                    d.with_node(i, d.nodes[i].become_follower(response.term)),
                    c.collect_votes(i, request, k, end, votes).0,
                );
            } else {
                let more = if response.vote_granted {
                    votes + 1
                } else {
                    votes
                };
                collecting_keeps(d, i, request, k + 1, end, more);
            }
        }
    }
}

proof fn standing_members_keep(c: ClusterV, i: int)
    requires
        members_keep(c),
        0 <= i < c.nodes.len(),
        c.nodes[i].current_term < u64::MAX,
    ensures
        members_keep(c.stood(i)),
{
    reveal(ClusterV::stood);
    assert(keeps(c.nodes[i]));
    standing_keeps(c.nodes[i]);
    one_more_keeps(c, i, c.nodes[i].become_candidate());
    tracking_keeps_files(c.with_node(i, c.nodes[i].become_candidate()), c.stood(i));
}

proof fn crowned_members_keep(c: ClusterV, i: int, term: Term)
    requires
        members_keep(c),
        0 <= i < c.nodes.len(),
        c.nodes[i].current_term == term,
    ensures
        members_keep(c.crown(i, term)),
{
    reveal(keeps);
    reveal(records);
    reveal(ClusterV::crown);
    let crowned = c.crown(i, term);
    assert forall|k: int| 0 <= k < crowned.nodes.len() implies keeps(#[trigger] crowned.nodes[k])
        && records(c.nodes[k], crowned.nodes[k]) by {
        assert(keeps(c.nodes[k]));
        following_keeps(c.nodes[k], term);
    }
    steps_keep(c, crowned);
}

proof fn losing_members_keep(c: ClusterV, i: int)
    requires
        members_keep(c),
        0 <= i < c.nodes.len(),
    ensures
        members_keep(
            c.with_node(i, NodeV { election_elapsed: 0, ..c.nodes[i].increase_backoff() }),
        ),
{
    reveal(keeps);
    reveal(records);
    assert(keeps(c.nodes[i]));
    one_more_keeps(c, i, NodeV { election_elapsed: 0, ..c.nodes[i].increase_backoff() });
}

#[verifier::rlimit(40)]
proof fn electing_keeps(c: ClusterV, h: History, l: int, i: int) -> (after: History)
    requires
        all_keep(c, h, l),
        c.term_room(1),
        0 <= i < c.nodes.len(),
    ensures
        all_keep(c.elect(i).0, after, c.elect(i).0.leader_at()),
{
    reveal(ClusterV::elect);
    raft_soundness::explained_member(c, h, l, i);
    assert(c.nodes[i].current_term + 1 <= u64::MAX);
    raft_steps::standing_is_explained(c, h, l, i);
    let stood = c.stood(i);
    standing_members_keep(c, i);
    let request = stood.ballot(i);
    let end = c.nodes.len() as int;
    let (asked, votes, stopped) = stood.collect_votes(i, request, 0, end, 1);
    collecting_keeps(stood, i, request, 0, end, 1);
    if stopped {
        raft_soundness::explained_place(asked, h, l);
        h
    } else if votes >= c.quorum() {
        let h2 = raft_steps::crowning_is_explained(asked, h, l, i);
        let crowned = asked.crown(i, request.term);
        crowned_members_keep(asked, i, request.term);
        assert(h2.recordable()) by {
            assert forall|k: int| 0 <= k < h2.logs.len() implies all_recordable(
                #[trigger] h2.logs[k],
            ) by {
                assert(all_recordable(h.logs[k]));
            }
        }
        let h3 = heartbeats_keep(crowned, h2, i);
        raft_soundness::explained_place(crowned.heartbeat_round().0, h3, i);
        h3
    } else {
        let node = NodeV { election_elapsed: 0, ..asked.nodes[i].increase_backoff() };
        losing_members_keep(asked, i);
        let d = asked.with_node(i, node);
        assert(d == c.elect(i).0);
        raft_soundness::explained_place(d, h, l);
        h
    }
}

/// Clocks have nothing to do with files.
proof fn clocks_keep_files(c: ClusterV, d: ClusterV)
    requires
        members_keep(c),
        d.nodes.len() == c.nodes.len(),
        forall|k: int|
            0 <= k < c.nodes.len() ==> (#[trigger] d.nodes[k]) == (NodeV {
                election_elapsed: d.nodes[k].election_elapsed,
                heartbeat_elapsed: d.nodes[k].heartbeat_elapsed,
                ..c.nodes[k]
            }),
    ensures
        members_keep(d),
{
    reveal(keeps);
    reveal(records);
    assert forall|k: int| 0 <= k < d.nodes.len() implies keeps(#[trigger] d.nodes[k]) && records(
        c.nodes[k],
        d.nodes[k],
    ) by {
        assert(keeps(c.nodes[k]));
    }
    steps_keep(c, d);
}

#[verifier::rlimit(40)]
proof fn maybe_electing_keeps(c: ClusterV, h: History, l: int) -> (after: History)
    requires
        all_keep(c, h, l),
        c.term_room(1),
        forall|k: int|
            0 <= k < c.nodes.len() ==> (#[trigger] c.nodes[k]).election_elapsed < c.clock_ticks,
    ensures
        all_keep(c.maybe_elect().0, after, c.maybe_elect().0.leader_at()),
{
    raft_soundness::explained_place(c, h, l);
    raft_laws::valid_is_bounded(c);
    raft_laws::ticking_elections_keeps(c, u64::MAX, (u64::MAX - 1) as u64);
    let d = c.tick_elections();
    clocks_keep_files(c, d);
    raft_soundness::resting_is_explained(c, d, h, l);
    raft_soundness::explained_place(d, h, l);
    raft_laws::first_timeout_is_a_place(c.nodes, 0);
    match raft_model::first_timeout(c.nodes, 0) {
        None => h,
        Some(i) => {
            assert(d.term_room(1)) by {
                assert forall|k: int| 0 <= k < d.nodes.len() implies (
                #[trigger] d.nodes[k]).current_term + 1 <= u64::MAX by {
                    assert(c.nodes[k].current_term + 1 <= u64::MAX);
                }
            }
            let h2 = electing_keeps(d, h, l, i);
            let (e, result) = d.elect(i);
            match result {
                Err(_) => h2,
                Ok(outcome) => if outcome.elected {
                    let h3 = heartbeats_keep(e, h2, e.leader_at());
                    raft_soundness::explained_place(e.heartbeat_round().0, h3, e.leader_at());
                    h3
                } else {
                    h2
                },
            }
        },
    }
}

#[verifier::rlimit(40)]
proof fn ticking_keeps(c: ClusterV, h: History, l: int) -> (after: History)
    requires
        all_keep(c, h, l),
        c.room(1),
    ensures
        all_keep(c.tick().0, after, c.tick().0.leader_at()),
{
    reveal(ClusterV::tick);
    let most = (u64::MAX - 1) as u64;
    raft_soundness::explained_place(c, h, l);
    raft_laws::valid_is_bounded(c);
    raft_laws::pulsing_keeps(c, u64::MAX, most);
    let (d, due) = c.pulse();
    clocks_keep_files(c, d);
    assert(raft_soundness::all_rest(c, d));
    raft_soundness::resting_is_explained(c, d, h, l);
    raft_soundness::explained_place(d, h, l);
    assert(raft_laws::bounded(d, most, most)) by {
        assert forall|k: int| 0 <= k < d.nodes.len() implies (#[trigger] d.nodes[k]).current_term
            <= most && d.nodes[k].log.last_index() <= most by {
            assert(c.nodes[k].current_term + 1 <= u64::MAX);
            assert(d.member_ok(k));
        }
    }
    if due {
        raft_laws::heartbeats_keep(d, most, most);
        let h2 = heartbeats_keep(d, h, l);
        let (e, result) = d.heartbeat_round();
        raft_soundness::explained_place(e, h2, l);
        if result is Err {
            h2
        } else {
            maybe_electing_keeps(e, h2, l)
        }
    } else {
        maybe_electing_keeps(d, h, l)
    }
}

#[verifier::rlimit(40)]
proof fn reconnecting_keeps(c: ClusterV, h: History, l: int, id: NodeId) -> (after: History)
    requires
        all_keep(c, h, l),
    ensures
        all_keep(c.reconnect(id).0, after, l),
{
    raft_soundness::explained_place(c, h, l);
    if raft_model::has_member(c.nodes, id) {
        let i = raft_model::position(c.nodes, id);
        let joined = ClusterV { connected: c.connected.update(i, true), ..c };
        raft_steps::connecting_keeps(c, joined);
        raft_soundness::resting_is_explained(c, joined, h, l);
        raft_soundness::explained_place(joined, h, l);
        tracking_keeps_files(c, joined);
        if id == c.leader_id {
            heartbeats_keep(joined, h, l)
        } else {
            let h2 = replicating_keeps(joined, h, l, i);
            let d = joined.replicate(l, i).0;
            raft_soundness::explained_place(d, h2, l);
            raft_laws::valid_is_bounded(joined);
            raft_laws::replicating_keeps(joined, l, i, u64::MAX, (u64::MAX - 1) as u64);
            replicating_from_keeps(d, h2, l, 0, c.nodes.len() as int, 0)
        }
    } else {
        h
    }
}

/// Whatever is proposed, the files stand for all members.
pub proof fn proposals_are_kept(c: ClusterV, command: CommandV)
    requires
        kept(c),
        c.log_room(1),
        can_be_kept(c, command),
    ensures
        kept(c.propose(command).0),
{
    let l = c.leader_at();
    let h = choose|h: History| #[trigger] all_keep(c, h, l);
    let g = proposing_keeps(c, h, l, command);
    let d = c.propose(command).0;
    raft_soundness::explained_place(d, g, l);
    assert(all_keep(d, g, d.leader_at()));
}

/// After a round of heartbeats the files stand for all members.
pub proof fn heartbeats_are_kept(c: ClusterV)
    requires
        kept(c),
    ensures
        kept(c.heartbeat_round().0),
{
    let l = c.leader_at();
    let h = choose|h: History| #[trigger] all_keep(c, h, l);
    let g = heartbeats_keep(c, h, l);
    let d = c.heartbeat_round().0;
    raft_soundness::explained_place(d, g, l);
    assert(all_keep(d, g, d.leader_at()));
}

/// After an election the files stand for all members.
pub proof fn elections_are_kept(c: ClusterV, id: NodeId)
    requires
        kept(c),
        c.term_room(1),
    ensures
        kept(c.start_election(id).0),
{
    let l = c.leader_at();
    let h = choose|h: History| #[trigger] all_keep(c, h, l);
    if raft_model::has_member(c.nodes, id) {
        let g = electing_keeps(c, h, l, raft_model::position(c.nodes, id));
        let d = c.start_election(id).0;
        assert(all_keep(d, g, d.leader_at()));
    }
}

/// After any number of ticks the files stand for all members.
pub proof fn ticks_are_kept(c: ClusterV, ticks: nat)
    requires
        kept(c),
        c.room(ticks as int),
    ensures
        kept(c.tick_many(ticks).0),
        ticks >= 1 ==> kept(c.tick().0),
    decreases ticks,
{
    if ticks > 0 {
        let l = c.leader_at();
        let h = choose|h: History| #[trigger] all_keep(c, h, l);
        raft_soundness::explained_place(c, h, l);
        assert(c.room(1));
        let g = ticking_keeps(c, h, l);
        let (d, result) = c.tick();
        assert(all_keep(d, g, d.leader_at()));
        raft_laws::ticking_takes_room(c, ticks as int);
        if result is Ok {
            ticks_are_kept(d, (ticks - 1) as nat);
        }
    }
}

/// Disconnecting and reconnecting members leaves files that stand for all.
pub proof fn connections_are_kept(c: ClusterV, id: NodeId)
    requires
        kept(c),
    ensures
        kept(c.disconnect(id).0),
        kept(c.reconnect(id).0),
{
    let l = c.leader_at();
    let h = choose|h: History| #[trigger] all_keep(c, h, l);
    raft_soundness::explained_place(c, h, l);
    let d = c.disconnect(id).0;
    raft_steps::disconnecting_is_explained(c, h, l, id);
    raft_soundness::explained_place(d, h, l);
    tracking_keeps_files(c, d);
    assert(all_keep(d, h, d.leader_at()));
    let g = reconnecting_keeps(c, h, l, id);
    let e = c.reconnect(id).0;
    raft_soundness::explained_place(e, g, l);
    assert(all_keep(e, g, e.leader_at()));
}

/// A snapshot of the leader that succeeds leaves files that stand for all
/// members.
pub proof fn snapshots_are_kept(c: ClusterV)
    requires
        kept(c),
        c.create_leader_snapshot().1 is Ok,
    ensures
        kept(c.create_leader_snapshot().0),
{
    let l = c.leader_at();
    let h = choose|h: History| #[trigger] all_keep(c, h, l);
    raft_soundness::explained_place(c, h, l);
    raft_soundness::explained_member(c, h, l, l);
    raft_steps::compacting_is_explained(c, h, l);
    assert(keeps(c.nodes[l]));
    assert(all_recordable(h.logs[l]));
    compacting_keeps(c.nodes[l], h.logs[l]);
    let node = c.nodes[l].create_snapshot().0;
    one_more_keeps(c, l, node);
    let d = c.create_leader_snapshot().0;
    tracking_keeps_files(c.with_node(l, node), d);
    raft_soundness::explained_place(d, h, l);
    assert(all_keep(d, h, d.leader_at()));
}

/// In a new cluster whose members keep files, the files stand for all of them.
pub proof fn new_clusters_are_kept(ids: Seq<NodeId>, images: Seq<WalV>, c: ClusterV)
    requires
        raft_guarantees::without_records(Some(images)),
        images.len() == ids.len(),
        raft_model::built(ids, Some(images)) == Ok::<ClusterV, DbErrorV>(c),
        c.wf(),
    ensures
        kept(c),
{
    reveal(keeps);
    reveal(records);
    reveal(terms_recorded);
    let h = raft_guarantees::new_clusters_are_explained(ids, Some(images), c);
    assert forall|i: int| 0 <= i < c.nodes.len() implies keeps(#[trigger] c.nodes[i]) by {
        assert(raft_guarantees::is_blank(c.nodes[i]));
    }
    assert(all_keep(c, h, c.leader_at()));
}

} // verus!
