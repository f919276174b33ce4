//! Whole logs, compacted prefixes included, and what a member's log becomes
//! when it takes what a leader sends.
use vstd::prelude::*;

use crate::memlog;
use crate::memlog::MemLogV;
use crate::raft_node;
use crate::raft_node::NodeV;
use crate::raft_node_laws;
use crate::snapshot_codec::SnapshotDataV;
use crate::state_machine;
use crate::state_machine::KvMap;
use crate::types::{CommandV, Index, LogEntryV, Term};

verus! {

/// The term at an index of a whole log, 0 where it holds none.
pub open spec fn term_of(whole: Seq<LogEntryV>, index: int) -> Term {
    if 1 <= index <= whole.len() {
        whole[index - 1].term
    } else {
        0
    }
}

/// Two whole logs hold the same entries through an index.
pub open spec fn agree(f: Seq<LogEntryV>, g: Seq<LogEntryV>, index: int) -> bool {
    0 <= index <= f.len() && index <= g.len() && f.take(index) == g.take(index)
}

/// The log is what compaction has left of the whole one.
pub open spec fn rest_of(log: MemLogV, whole: Seq<LogEntryV>) -> bool {
    &&& whole.len() <= u64::MAX
    &&& memlog::contiguous(whole, 1)
    &&& log.base_index <= whole.len()
    &&& log.entries == whole.skip(log.base_index as int)
    &&& log.base_term == term_of(whole, log.base_index as int)
}

/// The state that the first entries of a whole log build.
pub open spec fn state_at(whole: Seq<LogEntryV>, index: int) -> KvMap {
    state_machine::replayed(KvMap::empty(), whole.take(index))
}

/// The node stands for the whole log: its log is the rest of it, and its state
/// and its snapshot are what the entries build that each of them covers.
pub open spec fn stands_for(node: NodeV, whole: Seq<LogEntryV>) -> bool {
    &&& node.wf()
    &&& rest_of(node.log, whole)
    &&& node.commit_index <= whole.len()
    &&& node.state == state_at(whole, node.commit_index as int)
    &&& node.snapshot matches Some(data) ==> data.state == state_at(
        whole,
        node.log.base_index as int,
    )
}

/// Where two whole logs have the same term, they agree up to there.
pub open spec fn match_up(f: Seq<LogEntryV>, g: Seq<LogEntryV>) -> bool {
    forall|index: int|
        #![trigger term_of(f, index)]
        1 <= index <= f.len() && index <= g.len() && term_of(f, index) == term_of(g, index)
            ==> agree(f, g, index)
}

/// What a whole log may become that a leader's log is sent to: a beginning of
/// the one or of the other that leaves out nothing on which they agree.
pub open spec fn takes(f: Seq<LogEntryV>, g: Seq<LogEntryV>, after: Seq<LogEntryV>) -> bool {
    &&& after.is_prefix_of(f) || after.is_prefix_of(g)
    &&& forall|index: int| #[trigger] agree(f, g, index) ==> index <= after.len()
}

/// Agreeing up to an index is agreeing up to every earlier one.
pub proof fn agreeing_reaches_back(f: Seq<LogEntryV>, g: Seq<LogEntryV>, index: int, earlier: int)
    requires
        agree(f, g, index),
        0 <= earlier <= index,
    ensures
        agree(f, g, earlier),
        agree(g, f, earlier),
        term_of(f, earlier) == term_of(g, earlier),
{
    assert(f.take(earlier) =~= f.take(index).take(earlier));
    assert(g.take(earlier) =~= g.take(index).take(earlier));
    if earlier >= 1 {
        assert(f.take(earlier)[earlier - 1] == f[earlier - 1]);
        assert(g.take(earlier)[earlier - 1] == g[earlier - 1]);
    }
}

/// What a log takes still agrees with the leader's wherever it did.
pub proof fn taking_keeps_agreement(
    f: Seq<LogEntryV>,
    g: Seq<LogEntryV>,
    after: Seq<LogEntryV>,
    index: int,
)
    requires
        takes(f, g, after),
        agree(f, g, index),
    ensures
        agree(after, g, index),
        agree(after, f, index),
{
    assert(index <= after.len());
    if after.is_prefix_of(f) {
        assert(after.take(index) =~= f.take(index));
    } else {
        assert(after.take(index) =~= g.take(index));
    }
}

/// What the log shows of the whole one.
pub proof fn rest_shows(log: MemLogV, whole: Seq<LogEntryV>)
    requires
        rest_of(log, whole),
    ensures
        log.wf(),
        log.last_index() == whole.len(),
        log.last_term() == term_of(whole, whole.len() as int),
        forall|index: Index|
            log.base_index <= index <= whole.len() && index > 0 ==> #[trigger] log.term_at(index)
                == Some(term_of(whole, index as int)),
        forall|index: Index|
            log.base_index < index <= whole.len() ==> #[trigger] log.get(index) == Some(
                whole[index - 1],
            ),
        forall|index: Index|
            log.base_index < index <= whole.len() + 1 ==> #[trigger] log.entries_from(index)
                == whole.skip(index - 1),
{
    let base = log.base_index as int;
    assert forall|k: int| 0 <= k < log.entries.len() implies (#[trigger] log.entries[k]).index
        == base + 1 + k by {
        assert(log.entries[k] == whole[base + k]);
    }
    if log.entries.len() > 0 {
        assert(log.entries.last() == whole[whole.len() - 1]);
    }
    assert forall|index: Index| base < index <= whole.len() implies #[trigger] log.get(index)
        == Some(whole[index - 1]) by {
        assert(log.entries[index - base - 1] == whole[index - 1]);
    }
    assert forall|index: Index|
        base <= index <= whole.len() && index > 0 implies #[trigger] log.term_at(index) == Some(
        term_of(whole, index as int),
    ) by {
        if index > base {
            assert(log.get(index) == Some(whole[index - 1]));
        }
    }
    assert forall|index: Index| base < index <= whole.len() + 1 implies #[trigger] log.entries_from(
        index,
    ) == whole.skip(index - 1) by {
        assert(log.entries_from(index) =~= whole.skip(index - 1));
    }
}

/// Committing further applies the entries of the whole log.
pub proof fn committing_stands(node: NodeV, whole: Seq<LogEntryV>, index: Index)
    requires
        stands_for(node, whole),
        index <= whole.len(),
    ensures
        stands_for(node.commit_to(index), whole),
        node.commit_to(index).commit_index == if index > node.commit_index {
            index
        } else {
            node.commit_index
        },
        node.commit_to(index).log == node.log,
{
    if index > node.commit_index {
        let base = node.log.base_index as int;
        let from = node.commit_index as int;
        let more = node.log.entries.subrange(from - base, index - base);
        assert(whole.take(index as int) =~= whole.take(from) + more);
        state_machine::replay_in_parts(KvMap::empty(), whole.take(from), more);
    }
}

/// A change of the write-ahead log, of role, term, vote and clocks changes
/// nothing of what a node stands for.
pub open spec fn same_stand(before: NodeV, after: NodeV) -> bool {
    &&& after.id == before.id
    &&& after.log == before.log
    &&& after.state == before.state
    &&& after.snapshot == before.snapshot
    &&& after.commit_index == before.commit_index
    &&& after.last_applied == before.last_applied
}

/// The first entry that is not there is missing or different.
pub proof fn first_new_entry_is_new(log: MemLogV, entries: Seq<LogEntryV>, k: int)
    requires
        0 <= k <= entries.len(),
    ensures
        ({
            let (j, conflict) = raft_node::first_new_entry(log, entries, k);
            conflict ==> 0 <= j < entries.len() && log.get(entries[j].index) is Some && log.get(
                entries[j].index,
            )->0.term != entries[j].term
        }),
    decreases entries.len() - k,
{
    if k < entries.len() && log.get(entries[k].index) is Some && log.get(
        entries[k].index,
    )->0.term == entries[k].term {
        first_new_entry_is_new(log, entries, k + 1);
    }
}

/// Cutting a log at an entry that is not committed.
proof fn cutting_stands(node: NodeV, whole: Seq<LogEntryV>, index: Index)
    requires
        stands_for(node, whole),
        node.commit_index < index <= whole.len(),
    ensures
        ({
            let (kept, cut) = node.cut(index);
            &&& cut is Ok ==> stands_for(kept, whole.take(index - 1))
            &&& cut is Err ==> same_stand(node, kept) && stands_for(kept, whole)
            &&& kept == NodeV { wal: kept.wal, log: kept.log, ..node }
        }),
{
    rest_shows(node.log, whole);
    let (kept, cut) = node.cut(index);
    if cut is Ok {
        let left = whole.take(index - 1);
        let base = node.log.base_index as int;
        assert(kept.log.entries =~= left.skip(base));
        assert(memlog::contiguous(left, 1)) by {
            assert forall|k: int| 0 <= k < left.len() implies (#[trigger] left[k]).index == 1 + k by {
                assert(left[k] == whole[k]);
            }
        }
        assert(left.take(node.commit_index as int) =~= whole.take(node.commit_index as int));
        assert(left.take(base) =~= whole.take(base));
        rest_shows(kept.log, left);
    }
}

/// Replacing what comes after `at` by what the leader has there.
proof fn replacing_takes(node: NodeV, f: Seq<LogEntryV>, g: Seq<LogEntryV>, at: int) -> (after: Seq<
    LogEntryV,
>)
    requires
        stands_for(node, f),
        g.len() < u64::MAX,
        memlog::contiguous(g, 1),
        agree(f, g, node.commit_index as int),
        agree(f, g, at),
        at < f.len(),
        at < g.len(),
        f[at].term != g[at].term,
    ensures
        takes(f, g, after),
        ({
            let (kept, cut) = node.cut((at + 1) as u64);
            let (extended, result) = kept.extend(g.skip(at));
            &&& cut is Err ==> after == f && stands_for(kept, after)
            &&& cut is Ok ==> stands_for(extended, after)
            &&& cut is Ok && result is Ok ==> after == g
            &&& cut is Ok && result is Err ==> after == f.take(at)
            &&& kept == NodeV { wal: kept.wal, log: kept.log, ..node }
            &&& extended == NodeV { wal: extended.wal, log: extended.log, ..node }
            &&& kept.log.base_index == node.log.base_index
            &&& extended.log.base_index == node.log.base_index
        }),
{
    assert forall|index: int| #[trigger] agree(f, g, index) implies index <= at by {
        if index > at {
            agreeing_reaches_back(f, g, index, at + 1);
            assert(term_of(f, at + 1) == f[at].term);
            assert(term_of(g, at + 1) == g[at].term);
        }
    }
    let left = f.take(at);
    assert(f.take(f.len() as int) =~= f);
    assert(g.take(g.len() as int) =~= g);
    assert(left.take(at) =~= left);
    cutting_stands(node, f, (at + 1) as u64);
    let (kept, cut) = node.cut((at + 1) as u64);
    if cut is Err {
        f
    } else {
        extending_takes(kept, left, g);
        if kept.extend(g.skip(at)).1 is Ok {
            g
        } else {
            left
        }
    }
}

/// Merging what a leader sends after an entry on which both agree.
proof fn merging_takes(node: NodeV, f: Seq<LogEntryV>, g: Seq<LogEntryV>, prev: Index) -> (after:
    Seq<LogEntryV>)
    requires
        stands_for(node, f),
        g.len() < u64::MAX,
        memlog::contiguous(g, 1),
        match_up(f, g),
        agree(f, g, node.commit_index as int),
        agree(f, g, prev as int),
        node.log.base_index <= prev,
    ensures
        takes(f, g, after),
        stands_for(node.merge(g.skip(prev as int)).0, after),
        node.merge(g.skip(prev as int)).1 is Ok ==> agree(after, g, g.len() as int),
        node.merge(g.skip(prev as int)).1 is Err ==> after.is_prefix_of(f),
        ({
            let merged = node.merge(g.skip(prev as int)).0;
            merged == NodeV { wal: merged.wal, log: merged.log, ..node }
        }),
        node.merge(g.skip(prev as int)).0.log.base_index == node.log.base_index,
{
    let entries = g.skip(prev as int);
    rest_shows(node.log, f);
    assert forall|k: int| 0 <= k < entries.len() implies (#[trigger] entries[k]).index == prev + 1
        + k by {
        assert(entries[k] == g[prev + k]);
    }
    raft_node::first_new_entry_shape(node.log, entries, prev, 0);
    first_new_entry_is_new(node.log, entries, 0);
    let (j, conflict) = raft_node::first_new_entry(node.log, entries, 0);
    let at = prev + j;
    assert(agree(f, g, at)) by {
        if j > 0 {
            assert(entries[j - 1] == g[at - 1]);
            let last = entries[j - 1].index;
            assert(node.log.get(last) == Some(f[last - 1]));
            assert(term_of(f, at) == term_of(g, at));
        }
    }
    assert(f.take(f.len() as int) =~= f);
    if conflict {
        assert(entries[j] == g[at]);
        assert(node.log.get(entries[j].index) == Some(f[at as int]));
        assert(entries.skip(j) =~= g.skip(at));
        replacing_takes(node, f, g, at)
    } else if j < entries.len() {
        assert(at == f.len());
        assert(entries.skip(j) =~= g.skip(at));
        extending_takes(node, f, g);
        if node.extend(g.skip(at)).1 is Ok {
            assert(takes(f, g, g));
            g
        } else {
            assert(takes(f, g, f));
            f
        }
    } else {
        assert(at == g.len());
        assert(takes(f, g, f));
        f
    }
}

/// The rest of a leader's log at the end of a log that is its beginning.
proof fn extending_takes(node: NodeV, f: Seq<LogEntryV>, g: Seq<LogEntryV>)
    requires
        stands_for(node, f),
        g.len() < u64::MAX,
        memlog::contiguous(g, 1),
        agree(f, g, f.len() as int),
    ensures
        ({
            let (after, result) = node.extend(g.skip(f.len() as int));
            &&& result is Ok ==> stands_for(after, g)
            &&& result is Err ==> stands_for(after, f) && same_stand(node, after)
            &&& after == NodeV { wal: after.wal, log: after.log, ..node }
        }),
{
    let (after, result) = node.extend(g.skip(f.len() as int));
    assert(f =~= f.take(f.len() as int));
    assert(f == g.take(f.len() as int));
    let base = node.log.base_index as int;
    if result is Ok {
        assert(after.log.entries =~= g.skip(base)) by {
            assert(g.take(f.len() as int).skip(base) + g.skip(f.len() as int) =~= g.skip(base));
        }
        agreeing_reaches_back(f, g, f.len() as int, base);
        agreeing_reaches_back(f, g, f.len() as int, node.commit_index as int);
        rest_shows(after.log, g);
    }
}

/// How a member in the leader's term or a later one takes what the leader sends
/// after the entry at `prev`: it takes it if, and only if, it is in the same
/// term and agrees with the leader up to there.
pub proof fn appending_takes(
    node: NodeV,
    leader: NodeV,
    f: Seq<LogEntryV>,
    g: Seq<LogEntryV>,
    prev: Index,
) -> (after: Seq<LogEntryV>)
    requires
        stands_for(node, f),
        stands_for(leader, g),
        g.len() < u64::MAX,
        match_up(f, g),
        agree(f, g, node.commit_index as int),
        leader.log.base_index <= prev <= g.len(),
        leader.current_term <= node.current_term,
        leader.current_term == node.current_term ==> node.log.base_index <= prev,
    ensures
        takes(f, g, after),
        ({
            let (next, result) = node.append_entries(
                leader.current_term,
                prev,
                term_of(g, prev as int),
                g.skip(prev as int),
                leader.commit_index,
            );
            &&& stands_for(next, after)
            &&& next.log.base_index == node.log.base_index
            &&& node.wal is None ==> next.wal is None
            &&& agree(after, g, next.commit_index as int)
            &&& next.commit_index == node.commit_index || next.commit_index == leader.commit_index
            &&& (result is Ok && result->Ok_0) ==> agree(after, g, g.len() as int)
                && next.commit_index >= leader.commit_index
            &&& result is Err ==> after.is_prefix_of(f) && node.wal is Some
            &&& (result is Ok && !result->Ok_0) ==> after == f && (leader.current_term
                < node.current_term || !agree(f, g, prev as int))
        }),
{
    reveal(NodeV::append_entries);
    rest_shows(node.log, f);
    rest_shows(leader.log, g);
    assert(f.take(f.len() as int) =~= f);
    assert(takes(f, g, f));
    if leader.current_term < node.current_term {
        f
    } else {
        let heeded = node.heed(leader.current_term);
        assert(same_stand(node, heeded));
        if !agree(f, g, prev as int) {
            assert(prev > 0) by {
                assert(f.take(0) =~= g.take(0));
            }
            assert(!heeded.agrees(prev, term_of(g, prev as int))) by {
                if prev <= f.len() {
                    assert(node.log.term_at(prev) == Some(term_of(f, prev as int)));
                }
            }
            f
        } else {
            agreeing_reaches_back(f, g, prev as int, prev as int);
            assert(heeded.agrees(prev, term_of(g, prev as int))) by {
                if prev > 0 {
                    assert(node.log.term_at(prev) == Some(term_of(f, prev as int)));
                }
            }
            let after = merging_takes(heeded, f, g, prev);
            let (merged, result) = heeded.merge(g.skip(prev as int));
            taking_keeps_agreement(f, g, after, node.commit_index as int);
            if result is Ok {
                rest_shows(merged.log, after);
                committing_stands(merged, after, leader.commit_index);
                agreeing_reaches_back(after, g, g.len() as int, leader.commit_index as int);
            }
            after
        }
    }
}

/// How a member that disagrees with the leader's snapshot takes it: afterwards
/// it holds what the snapshot covers, and nothing else.
pub proof fn installing_takes(
    node: NodeV,
    leader: NodeV,
    data: SnapshotDataV,
    f: Seq<LogEntryV>,
    g: Seq<LogEntryV>,
) -> (after: Seq<LogEntryV>)
    requires
        stands_for(node, f),
        stands_for(leader, g),
        leader.snapshot == Some(data),
        match_up(f, g),
        agree(f, g, node.commit_index as int),
        leader.current_term <= node.current_term,
        leader.current_term == node.current_term ==> !agree(
            f,
            g,
            leader.log.base_index as int,
        ),
    ensures
        takes(f, g, after),
        ({
            let (next, result) = node.install_snapshot(
                leader.current_term,
                data,
                leader.commit_index,
            );
            let base = leader.log.base_index as int;
            &&& stands_for(next, after)
            &&& agree(after, g, next.commit_index as int)
            &&& next.commit_index == node.commit_index || next.commit_index == base
            &&& (result is Ok && result->Ok_0) ==> after == g.take(base)
                && next.log.base_index == base && leader.current_term == node.current_term
            &&& node.wal is None ==> next.wal is None
            &&& (result is Ok && !result->Ok_0) ==> after == f && leader.current_term
                < node.current_term
            &&& result is Err ==> next.log.base_index == node.log.base_index
                && after.is_prefix_of(f) && node.wal is Some
        }),
{
    reveal(NodeV::install_snapshot);
    rest_shows(node.log, f);
    rest_shows(leader.log, g);
    assert(f.take(f.len() as int) =~= f);
    assert(takes(f, g, f));
    if leader.current_term < node.current_term {
        f
    } else {
        let base = leader.log.base_index;
        let heeded = node.heed(leader.current_term);
        assert(same_stand(node, heeded));
        assert forall|index: int| #[trigger] agree(f, g, index) implies index < base by {
            if index >= base {
                agreeing_reaches_back(f, g, index, base as int);
            }
        }
        assert(node.commit_index < base);
        assert(!heeded.has_snapshot(data));
        if base <= f.len() {
            assert(node.log.term_at(base) == Some(term_of(f, base as int)));
            assert(term_of(f, base as int) != term_of(g, base as int));
            assert(heeded.contradicts(data));
            cutting_stands(heeded, f, base);
        } else {
            assert(node.log.term_at(base) is None);
        }
        let (kept, cut) = heeded.yield_to(data);
        let left = if base <= f.len() {
            f.take(base - 1)
        } else {
            f
        };
        assert(takes(f, g, left));
        if cut is Err {
            f
        } else {
            assert(stands_for(kept, left));
            rest_shows(kept.log, left);
            taking_keeps_agreement(f, g, left, node.commit_index as int);
            raft_node_laws::storing_keeps(kept, data);
            let (stored, result) = kept.store_snapshot(data);
            if result is Err {
                left
            } else {
                let whole = g.take(base as int);
                let installed = stored.with_snapshot(data);
                assert(takes(f, g, whole));
                assert(installed.log.entries =~= whole.skip(base as int));
                assert(memlog::contiguous(whole, 1)) by {
                    assert forall|k: int| 0 <= k < whole.len() implies (#[trigger] whole[k]).index
                        == 1 + k by {
                        assert(whole[k] == g[k]);
                    }
                }
                assert(whole.take(base as int) =~= whole);
                assert(stands_for(installed, whole));
                rest_shows(installed.log, whole);
                whole
            }
        }
    }
}

/// A new local entry at the end of the whole log.
pub proof fn writing_stands(node: NodeV, f: Seq<LogEntryV>, command: CommandV, term: Term)
    requires
        stands_for(node, f),
        f.len() < u64::MAX,
    ensures
        ({
            let (after, result) = node.append_local(command, term);
            let entry = LogEntryV { term, index: (f.len() + 1) as u64, command };
            &&& result is Err ==> stands_for(after, f)
            &&& result matches Ok(written) ==> written == entry && stands_for(
                after,
                f.push(entry),
            )
        }),
{
    rest_shows(node.log, f);
    let (after, result) = node.append_local(command, term);
    let entry = LogEntryV { term, index: (f.len() + 1) as u64, command };
    if result is Ok {
        let whole = f.push(entry);
        let base = node.log.base_index as int;
        assert(after.log.entries =~= whole.skip(base));
        assert(memlog::contiguous(whole, 1));
        assert(whole.take(node.commit_index as int) =~= f.take(node.commit_index as int));
        assert(whole.take(base) =~= f.take(base));
        rest_shows(after.log, whole);
    }
}

/// A snapshot of what is committed leaves the whole log as it is, and succeeds
/// unless the disk fails.
pub proof fn compacting_stands(node: NodeV, f: Seq<LogEntryV>)
    requires
        stands_for(node, f),
    ensures
        stands_for(node.create_snapshot().0, f),
        node.create_snapshot().1 is Err ==> node.wal is Some,
{
    reveal(NodeV::create_snapshot);
    rest_shows(node.log, f);
    raft_node_laws::compacting_keeps(node);
    if node.commit_index != 0 {
        assert(node.log.term_at(node.commit_index) == Some(term_of(f, node.commit_index as int)));
        let after = node.create_snapshot().0;
        if node.create_snapshot().1 is Ok {
            assert(after.log.entries =~= f.skip(node.commit_index as int));
        }
    }
}

} // verus!
