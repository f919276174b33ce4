//! Every step of a cluster keeps a history behind it.
use vstd::prelude::*;

use crate::raft_history;
use crate::raft_history::{agree, match_up, stands_for, term_of};
use crate::raft_laws;
use crate::raft_model;
use crate::raft_model::ClusterV;
use crate::raft_node::{NodeV, RequestVote, Role};
use crate::raft_node_laws;
use crate::raft_soundness;
use crate::raft_soundness::{all_rest, reaches, rests, tally, terms_ascend, History};
use crate::types::{CommandV, Index, LogEntryV, NodeId};

verus! {

/// The leader's history after others have taken of its log: the same leader,
/// the same anchor, the same term.
pub open spec fn same_leader(before: History, after: History, l: int) -> bool {
    &&& after.logs.len() == before.logs.len()
    &&& after.anchor == before.anchor
    &&& after.reign == before.reign
    &&& after.logs[l] == before.logs[l]
}

/// What was anchored still is, and stands in the new leader's log as it stood
/// in the old one's.
pub open spec fn succeeds(before: History, l: int, after: History, m: int) -> bool {
    &&& before.anchor <= after.anchor
    &&& agree(before.logs[l], after.logs[m], before.anchor)
}

/// Succeeding twice is succeeding.
pub proof fn succeeding_twice(a: History, l: int, b: History, m: int, c: History, n: int)
    requires
        succeeds(a, l, b, m),
        succeeds(b, m, c, n),
    ensures
        succeeds(a, l, c, n),
{
    raft_history::agreeing_reaches_back(b.logs[m], c.logs[n], b.anchor, a.anchor);
}

/// Nothing has changed of what is anchored.
pub proof fn standing_still(c: ClusterV, h: History, l: int)
    requires
        h.explains(c, l),
    ensures
        succeeds(h, l, h, l),
{
    raft_soundness::explained_place(c, h, l);
    raft_soundness::explained_member(c, h, l, l);
}

/// Replicating to one member.
pub proof fn replicating_is_explained(c: ClusterV, h: History, l: int, i: int) -> (after: History)
    requires
        h.explains(c, l),
        0 <= i < c.nodes.len(),
    ensures
        after.explains(c.replicate(l, i).0, l),
        same_leader(h, after, l),
        c.replicate(l, i).0.nodes[l] == c.nodes[l],
{
    reveal(ClusterV::replicate);
    raft_soundness::explained_place(c, h, l);
    if i != l && c.connected[i] && c.available(l) {
        raft_soundness::catching_up_is_explained(c, h, l, i, false)
    } else {
        h
    }
}

/// Replicating to many members.
pub proof fn replicating_from_is_explained(
    c: ClusterV,
    h: History,
    l: int,
    k: int,
    end: int,
    acks: int,
) -> (after: History)
    requires
        h.explains(c, l),
        0 <= k <= end <= c.nodes.len(),
    ensures
        after.explains(c.replicate_from(l, k, end, acks).0, l),
        same_leader(h, after, l),
        c.replicate_from(l, k, end, acks).0.nodes[l] == c.nodes[l],
    decreases end - k,
{
    if k >= end {
        h
    } else if k == l {
        replicating_from_is_explained(c, h, l, k + 1, end, acks)
    } else {
        raft_soundness::explained_member(c, h, l, k);
        raft_laws::valid_is_bounded(c);
        raft_laws::replicating_keeps(c, l, k, u64::MAX, (u64::MAX - 1) as u64);
        let h2 = replicating_is_explained(c, h, l, k);
        let (d, result) = c.replicate(l, k);
        match result {
            Err(_) => h2,
            Ok(taken) => {
                let more = if taken {
                    acks + 1
                } else {
                    acks
                };
                replicating_from_is_explained(d, h2, l, k + 1, end, more)
            },
        }
    }
}

/// A round of heartbeats.
pub proof fn heartbeats_are_explained(c: ClusterV, h: History, l: int) -> (after: History)
    requires
        h.explains(c, l),
    ensures
        after.explains(c.heartbeat_round().0, l),
        same_leader(h, after, l),
{
    reveal(ClusterV::heartbeat_round);
    raft_soundness::explained_place(c, h, l);
    if c.nodes[l].role != Role::Leader {
        h
    } else {
        replicating_from_is_explained(
            c,
            h,
            l,
            0,
            c.nodes.len() as int,
            if c.connected[l] {
                1
            } else {
                0
            },
        )
    }
}

/// Agreeing with a log is agreeing with what it grows into.
proof fn growing_keeps_agreement(
    f: Seq<LogEntryV>,
    g: Seq<LogEntryV>,
    entry: LogEntryV,
    index: int,
)
    ensures
        index <= g.len() ==> (agree(f, g.push(entry), index) <==> agree(f, g, index)),
        index <= g.len() ==> (agree(g.push(entry), f, index) <==> agree(g, f, index)),
        index <= g.len() ==> term_of(g.push(entry), index) == term_of(g, index),
{
    if 0 <= index <= g.len() {
        assert(g.push(entry).take(index) =~= g.take(index));
    }
}

/// The leader's log after one more entry of its term.
proof fn written_logs_match(h: History, l: int, entry: LogEntryV)
    requires
        0 <= l < h.logs.len(),
        h.all_match(),
        h.written_by(l),
        entry.term == h.reign,
    ensures
        (History { logs: h.logs.update(l, h.logs[l].push(entry)), ..h }).all_match(),
        (History { logs: h.logs.update(l, h.logs[l].push(entry)), ..h }).written_by(l),
{
    let g = h.logs[l];
    let whole = g.push(entry);
    let h2 = History { logs: h.logs.update(l, whole), ..h };
    assert forall|a: int, b: int| 0 <= a < h2.logs.len() && 0 <= b < h2.logs.len() implies match_up(
        #[trigger] h2.logs[a],
        #[trigger] h2.logs[b],
    ) by {
        assert(match_up(h.logs[a], h.logs[b]));
        let f = h2.logs[a];
        let e = h2.logs[b];
        assert forall|index: int|
            1 <= index <= f.len() && index <= e.len() && #[trigger] term_of(f, index) == term_of(
                e,
                index,
            ) implies agree(f, e, index) by {
            if index <= g.len() {
                growing_keeps_agreement(h.logs[a], g, entry, index);
                growing_keeps_agreement(h.logs[b], g, entry, index);
                growing_keeps_agreement(whole, g, entry, index);
                assert(term_of(h.logs[a], index) == term_of(h.logs[b], index));
                assert(agree(h.logs[a], h.logs[b], index));
            } else if index == whole.len() {
                if a == l && b != l {
                    assert(h.logs[b][index - 1].term == h.reign);
                } else if b == l && a != l {
                    assert(h.logs[a][index - 1].term == h.reign);
                }
            }
        }
    }
    assert forall|k: int, n: int|
        0 <= k < h2.logs.len() && 0 <= n < h2.logs[k].len() && (#[trigger] h2.logs[k][n]).term
            == h2.reign implies n < h2.logs[l].len() by {
        if k != l {
            assert(h.logs[k][n].term == h.reign);
        }
    }
}

/// What is anchored stays so when the leader's log grows.
proof fn written_logs_stay_anchored(h: History, l: int, entry: LogEntryV)
    requires
        0 <= l < h.logs.len(),
        h.is_anchored(l),
    ensures
        (History { logs: h.logs.update(l, h.logs[l].push(entry)), ..h }).is_anchored(l),
{
    let g = h.logs[l];
    let whole = g.push(entry);
    let h2 = History { logs: h.logs.update(l, whole), ..h };
    let p = h.anchor;
    assert(h2.holders(l, p) =~= h.holders(l, p)) by {
        assert forall|k: int| 0 <= k < h.logs.len() implies h2.holders(l, p)[k] == h.holders(
            l,
            p,
        )[k] by {
            growing_keeps_agreement(h.logs[k], g, entry, p);
            growing_keeps_agreement(whole, g, entry, p);
            growing_keeps_agreement(g, g, entry, p);
        }
    }
    growing_keeps_agreement(g, g, entry, p);
    assert forall|k: int|
        0 <= k < h2.logs.len() && reaches(#[trigger] h2.logs[k], term_of(h2.logs[l], p), p) implies agree(
        h2.logs[k],
        h2.logs[l],
        p,
    ) by {
        if k != l {
            assert(reaches(h.logs[k], term_of(g, p), p));
            growing_keeps_agreement(h.logs[k], g, entry, p);
        }
    }
}

/// The leader in office writes an entry.
pub proof fn writing_is_explained(c: ClusterV, h: History, l: int, command: CommandV) -> (after:
    History)
    requires
        h.explains(c, l),
        c.nodes[l].role == Role::Leader,
        c.nodes[l].log.last_index() + 1 < u64::MAX,
    ensures
        ({
            let (node, result) = c.nodes[l].append_local(command, c.nodes[l].current_term);
            &&& result is Err ==> after.explains(c.with_node(l, node), l)
            &&& result matches Ok(entry) ==> after.explains(
                c.with_node(l, node).with_progress(l, entry.index),
                l,
            )
        }),
        succeeds(h, l, after, l),
        c.nodes[l].append_local(command, c.nodes[l].current_term).1 matches Ok(entry)
            ==> after.logs == h.logs.update(l, h.logs[l].push(entry)) && entry.command == command
            && entry.term == c.nodes[l].current_term,
        after.anchor == h.anchor,
{
    standing_still(c, h, l);
    reveal(History::explains);
    let leader = c.nodes[l];
    let g = h.logs[l];
    let most = (u64::MAX - 1) as u64;
    raft_laws::valid_is_bounded(c);
    assert(c.member_ok(l));
    assert(stands_for(leader, g));
    raft_history::rest_shows(leader.log, g);
    raft_laws::writing_keeps(leader, command, leader.current_term);
    raft_history::writing_stands(leader, g, command, leader.current_term);
    let (node, result) = leader.append_local(command, leader.current_term);
    raft_laws::replacing_keeps(c, l, node, u64::MAX, most);
    let d = c.with_node(l, node);
    match result {
        Err(_) => {
            raft_soundness::resting_is_explained(c, d, h, l);
            h
        },
        Ok(entry) => {
            raft_laws::tracking_keeps(d, l, 1, entry.index);
            let e = d.with_progress(l, entry.index);
            let whole = g.push(entry);
            let h2 = History { logs: h.logs.update(l, whole), ..h };
            growing_keeps_agreement(g, g, entry, h.anchor);
            written_logs_match(h, l, entry);
            written_logs_stay_anchored(h, l, entry);
            raft_laws::same_ids_same_place(c, e);
            assert forall|k: int| 0 <= k < e.nodes.len() implies {
                &&& stands_for(#[trigger] e.nodes[k], h2.logs[k])
                &&& terms_ascend(h2.logs[k], h2.reign)
                &&& h2.reign <= e.nodes[k].current_term
            } by {
                assert(stands_for(c.nodes[k], h.logs[k]));
                assert(terms_ascend(h.logs[k], h.reign));
            }
            assert forall|k: int| 0 <= k < e.nodes.len() implies agree(
                h2.logs[k],
                h2.logs[l],
                #[trigger] e.match_index[k] as int,
            ) by {
                if k != l {
                    assert(agree(h.logs[k], g, c.match_index[k] as int));
                    growing_keeps_agreement(h.logs[k], g, entry, c.match_index[k] as int);
                }
            }
            assert forall|k: int| 0 <= k < e.nodes.len() implies agree(
                h2.logs[k],
                h2.logs[l],
                (#[trigger] e.nodes[k]).commit_index as int,
            ) && e.nodes[k].commit_index <= h2.anchor by {
                let commit = c.nodes[k].commit_index as int;
                assert(agree(h.logs[k], g, commit));
                growing_keeps_agreement(h.logs[k], g, entry, commit);
            }
            assert forall|k: int| 0 <= k < c.nodes.len() implies c.nodes[k].commit_index <= (
            #[trigger] e.nodes[k]).commit_index <= h2.anchor by {
                assert(c.nodes[k].commit_index <= h.anchor);
            }
            raft_soundness::anchors_stay_committed(c, e, h2);
            assert forall|k: int| 0 <= k < e.nodes.len() implies #[trigger] h2.tracks(e, l, k) by {
                assert(h.tracks(c, l, k));
                if k != l {
                    let next = c.next_index[k] as int;
                    growing_keeps_agreement(h.logs[k], g, entry, next);
                    if next == g.len() + 1 && agree(h.logs[k], whole, next) {
                        assert(h.logs[k].take(next)[next - 1] == whole.take(next)[next - 1]);
                        assert(h.logs[k][next - 1].term == h.reign);
                    }
                }
            }
            h2
        },
    }
}

/// Members that are known to hold an entry are among those that do.
proof fn known_hold(numbers: Seq<Index>, least: Index, marks: Seq<bool>)
    requires
        numbers.len() == marks.len(),
        forall|k: int| 0 <= k < numbers.len() && numbers[k] >= least ==> #[trigger] marks[k],
    ensures
        raft_model::count_reaching(numbers, least) <= tally(marks),
    decreases numbers.len(),
{
    if numbers.len() > 0 {
        let n = numbers.len() - 1;
        assert forall|k: int| 0 <= k < n && numbers.drop_last()[k] >= least implies
            #[trigger] marks.drop_last()[k] by {
            assert(marks[k]);
        }
        known_hold(numbers.drop_last(), least, marks.drop_last());
        assert(numbers[n] >= least ==> marks[n]);
    }
}

/// An entry of the leader's own term that a quorum is known to hold becomes the
/// anchor.
proof fn quorums_anchor(c: ClusterV, h: History, l: int, point: Index)
    requires
        h.explains(c, l),
        c.nodes[l].role == Role::Leader,
        h.anchor < point <= h.logs[l].len(),
        raft_model::count_reaching(c.match_index, point) >= c.quorum(),
        term_of(h.logs[l], point as int) == h.reign,
    ensures
        (History { anchor: point as int, ..h }).is_anchored(l),
{
    reveal(History::explains);
    let g = h.logs[l];
    let h2 = History { anchor: point as int, ..h };
    let marks = h2.holders(l, point as int);
    assert forall|k: int| 0 <= k < c.match_index.len() && c.match_index[k] >= point implies
        #[trigger] marks[k] by {
        assert(agree(h.logs[k], g, c.match_index[k] as int));
        raft_history::agreeing_reaches_back(
            h.logs[k],
            g,
            c.match_index[k] as int,
            point as int,
        );
    }
    known_hold(c.match_index, point, marks);
    assert forall|k: int|
        0 <= k < h.logs.len() && reaches(#[trigger] h.logs[k], h.reign, point as int) implies agree(
        h.logs[k],
        g,
        point as int,
    ) by {
        let f = h.logs[k];
        assert(stands_for(c.nodes[k], f));
        assert(terms_ascend(f, h.reign));
        let n = f.len() as int;
        assert(n >= 1);
        assert(f[n - 1].term == h.reign);
        assert(h.logs[k][n - 1].term == h.reign);
        assert(match_up(h.logs[k], h.logs[l]));
        assert(stands_for(c.nodes[l], h.logs[l]));
        assert(terms_ascend(g, h.reign));
        assert(g[point - 1].term <= g[n - 1].term <= h.reign);
        assert(term_of(f, n) == term_of(g, n));
        raft_history::agreeing_reaches_back(f, g, n, point as int);
    }
}

/// The leader in office commits what a quorum is known to hold.
pub proof fn advancing_is_explained(c: ClusterV, h: History, l: int) -> (after: History)
    requires
        h.explains(c, l),
        c.nodes[l].role == Role::Leader,
    ensures
        after.explains(c.advance_commit(l), l),
        after.logs == h.logs,
        after.reign == h.reign,
        after.anchor == h.anchor || after.anchor == c.advance_commit(l).nodes[l].commit_index,
        succeeds(h, l, after, l),
{
    standing_still(c, h, l);
    raft_soundness::explained_place(c, h, l);
    raft_soundness::explained_member(c, h, l, l);
    let leader = c.nodes[l];
    let g = h.logs[l];
    raft_laws::valid_is_bounded(c);
    raft_laws::advancing_commit_keeps(c, l, u64::MAX, (u64::MAX - 1) as u64);
    raft_history::rest_shows(leader.log, g);
    let last = leader.log.last_index();
    raft_laws::commit_point_is_greatest(c, l, last);
    let point = c.commit_point(l, last);
    raft_history::committing_stands(leader, g, point);
    let h2 = if point > leader.commit_index && point > h.anchor {
        assert(leader.log.term_at(point) == Some(term_of(g, point as int)));
        quorums_anchor(c, h, l, point);
        History { anchor: point as int, ..h }
    } else {
        h
    };
    let d = c.advance_commit(l);
    reveal(History::explains);
    raft_laws::same_ids_same_place(c, d);
    assert forall|k: int| 0 <= k < d.nodes.len() implies {
        &&& stands_for(#[trigger] d.nodes[k], h2.logs[k])
        &&& terms_ascend(h2.logs[k], h2.reign)
        &&& h2.reign <= d.nodes[k].current_term
    } by {
        assert(stands_for(c.nodes[k], h.logs[k]));
    }
    assert forall|k: int| 0 <= k < d.nodes.len() implies agree(
        h2.logs[k],
        h2.logs[l],
        (#[trigger] d.nodes[k]).commit_index as int,
    ) && d.nodes[k].commit_index <= h2.anchor by {
        assert(agree(h.logs[k], g, c.nodes[k].commit_index as int));
    }
    assert(h2.anchor_is_committed(d)) by {
        if h2.anchor == h.anchor {
            assert forall|k: int| 0 <= k < c.nodes.len() implies c.nodes[k].commit_index <= (
            #[trigger] d.nodes[k]).commit_index <= h2.anchor by {
                assert(c.nodes[k].commit_index <= h.anchor);
            }
            raft_soundness::anchors_stay_committed(c, d, h2);
        } else {
            assert(d.nodes[l].commit_index == h2.anchor);
        }
    }
    assert forall|k: int| 0 <= k < d.nodes.len() implies #[trigger] h2.tracks(d, l, k) by {
        assert(h.tracks(c, l, k));
    }
    assert forall|k: int| 0 <= k < d.nodes.len() implies agree(
        h2.logs[k],
        h2.logs[l],
        #[trigger] d.match_index[k] as int,
    ) by {
        assert(agree(h.logs[k], h.logs[l], c.match_index[k] as int));
    }
    h2
}

/// A proposal.
pub proof fn proposing_is_explained(c: ClusterV, h: History, l: int, command: CommandV) -> (after:
    History)
    requires
        h.explains(c, l),
        c.log_room(1),
    ensures
        after.explains(c.propose(command).0, l),
        succeeds(h, l, after, l),
        c.propose(command).1 matches Ok(outcome) ==> after.logs[l] == h.logs[l].push(
            LogEntryV {
                term: c.nodes[l].current_term,
                index: outcome.index,
                command,
            },
        ),
{
    standing_still(c, h, l);
    reveal(ClusterV::propose);
    raft_soundness::explained_place(c, h, l);
    let leader = c.nodes[l];
    let end = c.nodes.len() as int;
    if leader.role != Role::Leader {
        h
    } else {
        let h2 = writing_is_explained(c, h, l, command);
        let (node, result) = leader.append_local(command, leader.current_term);
        match result {
            Err(_) => h2,
            Ok(entry) => {
                let written = c.with_node(l, node).with_progress(l, entry.index);
                let h3 = replicating_from_is_explained(written, h2, l, 0, end, 0);
                let (sent, first) = written.replicate_from(l, 0, end, 0);
                match first {
                    Err(_) => h3,
                    Ok(_) => {
                        raft_soundness::explained_place(sent, h3, l);
                        assert(sent.nodes.len() == end) by {
                            raft_soundness::explained_place(written, h2, l);
                        }
                        let h4 = advancing_is_explained(sent, h3, l);
                        let told = sent.advance_commit(l);
                        raft_soundness::explained_place(told, h4, l);
                        let h5 = replicating_from_is_explained(told, h4, l, 0, end, 0);
                        succeeding_twice(h, l, h3, l, h4, l);
                        assert(succeeds(h, l, h5, l));
                        h5
                    },
                }
            },
        }
    }
}

/// A member that answers a candidate rests.
proof fn voting_rests(node: NodeV, request: RequestVote)
    ensures
        rests(node, node.request_vote(request).0),
        node.request_vote(request).1.vote_granted ==> node.up_to_date(request),
{
    reveal(NodeV::request_vote);
}

/// Resting twice is resting.
proof fn resting_transitive(a: ClusterV, b: ClusterV, c: ClusterV)
    requires
        all_rest(a, b),
        all_rest(b, c),
    ensures
        all_rest(a, c),
{
    assert forall|i: int| 0 <= i < a.nodes.len() implies rests(a.nodes[i], #[trigger] c.nodes[i]) by {
        assert(rests(a.nodes[i], b.nodes[i]));
        assert(rests(b.nodes[i], c.nodes[i]));
    }
}

/// Who among the members from place `k` on would support the candidate at `i`.
pub open spec fn supporters(c: ClusterV, i: int, request: RequestVote, k: int) -> Seq<bool> {
    Seq::new(c.nodes.len(), |j: int| k <= j && j != i && c.nodes[j].up_to_date(request))
}

/// One more mark makes one more.
proof fn one_more_mark(a: Seq<bool>, b: Seq<bool>, at: int)
    requires
        a.len() == b.len(),
        0 <= at < a.len(),
        !a[at],
        b[at],
        forall|i: int| 0 <= i < a.len() && i != at ==> #[trigger] a[i] == b[i],
    ensures
        tally(b) == tally(a) + 1,
    decreases a.len(),
{
    let n = a.len() - 1;
    if at == n {
        assert(a.drop_last() =~= b.drop_last());
    } else {
        assert(a[n] == b[n]);
        assert forall|i: int| 0 <= i < n && i != at implies #[trigger] a.drop_last()[i]
            == b.drop_last()[i] by {
            assert(a[i] == b[i]);
        }
        one_more_mark(a.drop_last(), b.drop_last(), at);
    }
}

/// Asking for votes changes no log, and brings no more votes than there are
/// members whose logs are not further than the candidate's.
pub proof fn collecting_rests(
    c: ClusterV,
    i: int,
    request: RequestVote,
    k: int,
    end: int,
    votes: int,
)
    requires
        0 <= i < c.nodes.len(),
        0 <= k <= end,
        end == c.nodes.len(),
    ensures
        all_rest(c, c.collect_votes(i, request, k, end, votes).0),
        c.collect_votes(i, request, k, end, votes).1 <= votes + tally(supporters(c, i, request, k)),
    decreases end - k,
{
    if k < end {
        let all = supporters(c, i, request, k);
        let rest = supporters(c, i, request, k + 1);
        if all[k] {
            one_more_mark(rest, all, k);
        } else {
            assert(all =~= rest);
        }
        if k == i || !(c.connected[i] && c.connected[k]) {
            collecting_rests(c, i, request, k + 1, end, votes);
        } else {
            voting_rests(c.nodes[k], request);
            let (voter, response) = c.nodes[k].request_vote(request);
            let d = c.with_node(k, voter);
            assert(all_rest(c, d));
            if response.term > request.term {
                let node = d.nodes[i].become_follower(response.term);
                let e = ClusterV { current_term: response.term, ..d.with_node(i, node) };
                assert(all_rest(d, e));
                resting_transitive(c, d, e);
            } else {
                let more = if response.vote_granted {
                    votes + 1
                } else {
                    votes
                };
                collecting_rests(d, i, request, k + 1, end, more);
                resting_transitive(c, d, d.collect_votes(i, request, k + 1, end, more).0);
                assert(supporters(d, i, request, k + 1) =~= rest);
            }
        }
    }
}

/// A log that a majority supports holds what is anchored.
proof fn supported_logs_hold_the_anchor(
    c: ClusterV,
    h: History,
    l: int,
    i: int,
    request: RequestVote,
)
    requires
        h.explains(c, l),
        0 <= i < c.nodes.len(),
        request.last_log_index == c.nodes[i].log.last_index(),
        request.last_log_term == c.nodes[i].log.last_term(),
        1 + tally(supporters(c, i, request, 0)) >= c.quorum(),
    ensures
        agree(h.logs[i], h.logs[l], h.anchor),
{
    reveal(History::explains);
    let p = h.anchor;
    let g = h.logs[l];
    let f = h.logs[i];
    let willing = supporters(c, i, request, 0);
    let marks = willing.update(i, true);
    one_more_mark(willing, marks, i);
    let j = raft_soundness::majorities_meet(marks, h.holders(l, p));
    let voter = h.logs[j];
    assert(agree(voter, g, p));
    assert(stands_for(c.nodes[i], f));
    assert(stands_for(c.nodes[j], voter));
    assert(terms_ascend(voter, h.reign));
    raft_history::rest_shows(c.nodes[i].log, f);
    raft_history::rest_shows(c.nodes[j].log, voter);
    raft_history::agreeing_reaches_back(voter, g, p, p);
    if j != i {
        assert(c.nodes[j].up_to_date(request));
        let n = voter.len() as int;
        assert(term_of(g, p) <= term_of(voter, n)) by {
            if p >= 1 {
                assert(voter[p - 1].term <= voter[n - 1].term);
            }
        }
        assert(reaches(h.logs[i], term_of(g, p), p));
    }
}

/// A member that holds what is anchored takes office in a new term.
#[verifier::rlimit(40)]
pub proof fn crowning_is_explained(c: ClusterV, h: History, l: int, i: int) -> (after: History)
    requires
        h.explains(c, l),
        0 <= i < c.nodes.len(),
        h.reign < c.nodes[i].current_term,
        agree(h.logs[i], h.logs[l], h.anchor),
    ensures
        after.explains(c.crown(i, c.nodes[i].current_term), i),
        succeeds(h, l, after, i),
        after.anchor == h.anchor,
        after.logs == h.logs,
{
    let term = c.nodes[i].current_term;
    raft_soundness::explained_place(c, h, l);
    raft_laws::valid_is_bounded(c);
    raft_laws::crowning_keeps(c, i, term, u64::MAX, (u64::MAX - 1) as u64);
    let d = c.crown(i, term);
    let h2 = History { reign: term, ..h };
    reveal(History::explains);
    reveal(ClusterV::crown);
    let f = h.logs[i];
    let g = h.logs[l];
    let p = h.anchor;
    assert(stands_for(c.nodes[i], f));
    raft_history::rest_shows(c.nodes[i].log, f);
    assert forall|k: int| 0 <= k < d.nodes.len() implies {
        &&& stands_for(#[trigger] d.nodes[k], h2.logs[k])
        &&& terms_ascend(h2.logs[k], h2.reign)
        &&& h2.reign <= d.nodes[k].current_term
    } by {
        assert(stands_for(c.nodes[k], h.logs[k]));
        assert(terms_ascend(h.logs[k], h.reign));
        raft_node_laws::becoming_follower_keeps(c.nodes[k], term);
    }
    assert forall|k: int, n: int|
        0 <= k < h2.logs.len() && 0 <= n < h2.logs[k].len() && (#[trigger] h2.logs[k][n]).term
            == h2.reign implies n < h2.logs[i].len() by {
        assert(stands_for(c.nodes[k], h.logs[k]));
        assert(terms_ascend(h.logs[k], h.reign));
    }
    assert forall|k: int| 0 <= k < d.nodes.len() implies agree(
        h2.logs[k],
        h2.logs[i],
        #[trigger] d.match_index[k] as int,
    ) by {
        if k != i {
            assert(h.logs[k].take(0) =~= f.take(0));
        }
    }
    assert forall|k: int| 0 <= k < d.nodes.len() implies agree(
        h2.logs[k],
        h2.logs[i],
        (#[trigger] d.nodes[k]).commit_index as int,
    ) && d.nodes[k].commit_index <= h2.anchor by {
        let commit = c.nodes[k].commit_index as int;
        assert(agree(h.logs[k], g, commit) && commit <= p);
        raft_history::agreeing_reaches_back(f, g, p, commit);
    }
    assert forall|k: int| 0 <= k < c.nodes.len() implies c.nodes[k].commit_index <= (
    #[trigger] d.nodes[k]).commit_index <= h2.anchor by {
        assert(c.nodes[k].commit_index <= h.anchor);
    }
    raft_soundness::anchors_stay_committed(c, d, h2);
    assert forall|k: int| 0 <= k < d.nodes.len() implies #[trigger] h2.tracks(d, i, k) by {
        assert(stands_for(c.nodes[k], h.logs[k]));
        assert(c.nodes[k].commit_index <= p);
    }
    assert(h2.is_anchored(i)) by {
        raft_history::agreeing_reaches_back(f, g, p, p);
        assert(h2.holders(i, p) =~= h.holders(l, p)) by {
            assert forall|k: int| 0 <= k < h.logs.len() implies h2.holders(i, p)[k] == h.holders(
                l,
                p,
            )[k] by {}
        }
        assert forall|k: int|
            0 <= k < h2.logs.len() && reaches(#[trigger] h2.logs[k], term_of(h2.logs[i], p), p) implies agree(
            h2.logs[k],
            h2.logs[i],
            p,
        ) by {
            assert(reaches(h.logs[k], term_of(g, p), p));
        }
    }
    h2
}

/// Standing for election and asking for votes changes no log; and whoever wins
/// holds what is anchored, in a new term.
pub proof fn standing_is_explained(c: ClusterV, h: History, l: int, i: int)
    requires
        h.explains(c, l),
        c.term_room(1),
        0 <= i < c.nodes.len(),
    ensures
        ({
            let stood = c.stood(i);
            let request = stood.ballot(i);
            let (asked, votes, stopped) = stood.collect_votes(
                i,
                request,
                0,
                c.nodes.len() as int,
                1,
            );
            let lost = asked.with_node(
                i,
                NodeV { election_elapsed: 0, ..asked.nodes[i].increase_backoff() },
            );
            &&& h.explains(stood, l)
            &&& h.explains(asked, l)
            &&& stood.nodes.len() == c.nodes.len()
            &&& asked.nodes.len() == c.nodes.len()
            &&& !stopped ==> h.explains(lost, l) && asked.nodes[i].current_term == request.term
                && h.reign < request.term
            &&& !stopped && votes >= c.quorum() ==> agree(h.logs[i], h.logs[l], h.anchor)
        }),
{
    let most = (u64::MAX - 1) as u64;
    raft_soundness::explained_member(c, h, l, i);
    raft_laws::valid_is_bounded(c);
    assert(raft_laws::bounded(c, most, most)) by {
        assert forall|k: int| 0 <= k < c.nodes.len() implies (#[trigger] c.nodes[k]).current_term
            <= most && c.nodes[k].log.last_index() <= most by {
            assert(c.nodes[k].current_term + 1 <= u64::MAX);
            assert(c.member_ok(k));
        }
    }
    raft_laws::standing_keeps(c, i, most, most);
    let stood = c.stood(i);
    assert(all_rest(c, stood)) by {
        reveal(ClusterV::stood);
    }
    raft_soundness::resting_is_explained(c, stood, h, l);
    let request = stood.ballot(i);
    let end = c.nodes.len() as int;
    raft_laws::valid_is_bounded(stood);
    raft_laws::collecting_keeps(stood, i, request, 0, end, 1, u64::MAX, most);
    collecting_rests(stood, i, request, 0, end, 1);
    let (asked, votes, stopped) = stood.collect_votes(i, request, 0, end, 1);
    raft_soundness::resting_is_explained(stood, asked, h, l);
    if !stopped {
        if votes >= c.quorum() {
            supported_logs_hold_the_anchor(stood, h, l, i, request);
        }
        let node = NodeV { election_elapsed: 0, ..asked.nodes[i].increase_backoff() };
        raft_soundness::explained_place(asked, h, l);
        assert(asked.member_ok(i));
        raft_laws::valid_is_bounded(asked);
        raft_laws::replacing_keeps(asked, i, node, u64::MAX, most);
        let d = asked.with_node(i, node);
        assert(all_rest(asked, d));
        raft_soundness::resting_is_explained(asked, d, h, l);
    }
}

/// An election.
pub proof fn electing_is_explained(c: ClusterV, h: History, l: int, i: int) -> (after: History)
    requires
        h.explains(c, l),
        c.term_room(1),
        0 <= i < c.nodes.len(),
    ensures
        after.explains(c.elect(i).0, c.elect(i).0.leader_at()),
        succeeds(h, l, after, c.elect(i).0.leader_at()),
        after.anchor == h.anchor,
{
    standing_still(c, h, l);
    reveal(ClusterV::elect);
    standing_is_explained(c, h, l, i);
    let stood = c.stood(i);
    let request = stood.ballot(i);
    let end = c.nodes.len() as int;
    let (asked, votes, stopped) = stood.collect_votes(i, request, 0, end, 1);
    raft_soundness::explained_place(asked, h, l);
    if stopped {
        h
    } else if votes >= c.quorum() {
        let h2 = crowning_is_explained(asked, h, l, i);
        let h3 = heartbeats_are_explained(asked.crown(i, request.term), h2, i);
        raft_soundness::explained_place(asked.crown(i, request.term).heartbeat_round().0, h3, i);
        h3
    } else {
        let node = NodeV { election_elapsed: 0, ..asked.nodes[i].increase_backoff() };
        raft_soundness::explained_place(asked.with_node(i, node), h, l);
        h
    }
}

/// Elections that a tick brings.
proof fn maybe_electing_is_explained(c: ClusterV, h: History, l: int) -> (after: History)
    requires
        h.explains(c, l),
        c.term_room(1),
        forall|k: int|
            0 <= k < c.nodes.len() ==> (#[trigger] c.nodes[k]).election_elapsed < c.clock_ticks,
    ensures
        after.explains(c.maybe_elect().0, c.maybe_elect().0.leader_at()),
        succeeds(h, l, after, c.maybe_elect().0.leader_at()),
        after.anchor == h.anchor,
{
    standing_still(c, h, l);
    raft_soundness::explained_place(c, h, l);
    raft_laws::valid_is_bounded(c);
    raft_laws::ticking_elections_keeps(c, u64::MAX, (u64::MAX - 1) as u64);
    let d = c.tick_elections();
    assert(all_rest(c, d));
    raft_soundness::resting_is_explained(c, d, h, l);
    raft_soundness::explained_place(d, h, l);
    raft_laws::first_timeout_is_a_place(c.nodes, 0);
    match raft_model::first_timeout(c.nodes, 0) {
        None => h,
        Some(i) => {
            assert(d.term_room(1)) by {
                assert forall|k: int| 0 <= k < d.nodes.len() implies (
                #[trigger] d.nodes[k]).current_term + 1 <= u64::MAX by {
                    assert(c.nodes[k].current_term + 1 <= u64::MAX);
                }
            }
            let h2 = electing_is_explained(d, h, l, i);
            let (e, result) = d.elect(i);
            match result {
                Err(_) => h2,
                Ok(outcome) => if outcome.elected {
                    let h3 = heartbeats_are_explained(e, h2, e.leader_at());
                    raft_soundness::explained_place(e.heartbeat_round().0, h3, e.leader_at());
                    h3
                } else {
                    h2
                },
            }
        },
    }
}

/// A tick. Nothing more is anchored by the passing of time.
pub proof fn ticking_is_explained(c: ClusterV, h: History, l: int) -> (after: History)
    requires
        h.explains(c, l),
        c.room(1),
    ensures
        after.explains(c.tick().0, c.tick().0.leader_at()),
        succeeds(h, l, after, c.tick().0.leader_at()),
        after.anchor == h.anchor,
{
    standing_still(c, h, l);
    reveal(ClusterV::tick);
    let most = (u64::MAX - 1) as u64;
    raft_soundness::explained_place(c, h, l);
    raft_laws::valid_is_bounded(c);
    raft_laws::pulsing_keeps(c, u64::MAX, most);
    let (d, due) = c.pulse();
    assert(all_rest(c, d));
    raft_soundness::resting_is_explained(c, d, h, l);
    raft_soundness::explained_place(d, h, l);
    assert(d.term_room(1)) by {
        assert forall|k: int| 0 <= k < d.nodes.len() implies (#[trigger] d.nodes[k]).current_term
            + 1 <= u64::MAX by {
            assert(c.nodes[k].current_term + 1 <= u64::MAX);
        }
    }
    if due {
        raft_laws::valid_is_bounded(d);
        assert(raft_laws::bounded(d, most, most)) by {
            assert forall|k: int| 0 <= k < d.nodes.len() implies (
            #[trigger] d.nodes[k]).current_term <= most && d.nodes[k].log.last_index() <= most by {
                assert(d.nodes[k].current_term + 1 <= u64::MAX);
                assert(d.member_ok(k));
            }
        }
        raft_laws::heartbeats_keep(d, most, most);
        let h2 = heartbeats_are_explained(d, h, l);
        let (e, result) = d.heartbeat_round();
        raft_soundness::explained_place(e, h2, l);
        if result is Err {
            h2
        } else {
            assert(e.term_room(1)) by {
                assert forall|k: int| 0 <= k < e.nodes.len() implies (
                #[trigger] e.nodes[k]).current_term + 1 <= u64::MAX by {
                    assert(e.nodes[k].current_term <= most);
                }
            }
            maybe_electing_is_explained(e, h2, l)
        }
    } else {
        maybe_electing_is_explained(d, h, l)
    }
}

/// Messages to and from a member stop.
pub proof fn disconnecting_is_explained(c: ClusterV, h: History, l: int, id: NodeId)
    requires
        h.explains(c, l),
    ensures
        h.explains(c.disconnect(id).0, l),
{
    raft_soundness::explained_place(c, h, l);
    if raft_model::has_member(c.nodes, id) {
        let d = c.disconnect(id).0;
        connecting_keeps(c, d);
        assert(all_rest(c, d));
        raft_soundness::resting_is_explained(c, d, h, l);
    }
}

/// Changing who is connected keeps a cluster valid.
pub proof fn connecting_keeps(c: ClusterV, d: ClusterV)
    requires
        c.wf(),
        d == (ClusterV { connected: d.connected, ..c }),
        d.connected.len() == c.connected.len(),
    ensures
        d.wf(),
{
    assert forall|k: int| 0 <= k < d.nodes.len() implies #[trigger] d.member_ok(k) by {
        assert(c.member_ok(k));
    }
}

/// Messages to and from a member pass again.
pub proof fn reconnecting_is_explained(c: ClusterV, h: History, l: int, id: NodeId) -> (after:
    History)
    requires
        h.explains(c, l),
    ensures
        after.explains(c.reconnect(id).0, l),
        succeeds(h, l, after, l),
{
    standing_still(c, h, l);
    raft_soundness::explained_place(c, h, l);
    if raft_model::has_member(c.nodes, id) {
        let i = raft_model::position(c.nodes, id);
        let joined = ClusterV { connected: c.connected.update(i, true), ..c };
        connecting_keeps(c, joined);
        assert(all_rest(c, joined));
        raft_soundness::resting_is_explained(c, joined, h, l);
        raft_soundness::explained_place(joined, h, l);
        if id == c.leader_id {
            heartbeats_are_explained(joined, h, l)
        } else {
            let h2 = replicating_is_explained(joined, h, l, i);
            let (d, result) = joined.replicate(l, i);
            raft_soundness::explained_place(d, h2, l);
            match result {
                Err(_) => h2,
                Ok(_) => replicating_from_is_explained(d, h2, l, 0, c.nodes.len() as int, 0),
            }
        }
    } else {
        h
    }
}

/// The leader makes a snapshot.
pub proof fn compacting_is_explained(c: ClusterV, h: History, l: int)
    requires
        h.explains(c, l),
    ensures
        h.explains(c.create_leader_snapshot().0, l),
{
    reveal(History::explains);
    let leader = c.nodes[l];
    let g = h.logs[l];
    let most = (u64::MAX - 1) as u64;
    assert(stands_for(leader, g));
    assert(c.member_ok(l));
    raft_laws::valid_is_bounded(c);
    raft_node_laws::compacting_keeps(leader);
    raft_history::compacting_stands(leader, g);
    raft_history::rest_shows(leader.log, g);
    let (node, result) = leader.create_snapshot();
    raft_laws::replacing_keeps(c, l, node, u64::MAX, most);
    let d = c.with_node(l, node);
    raft_laws::tracking_keeps(d, l, 1, node.log.last_index());
    let e = c.create_leader_snapshot().0;
    raft_laws::same_ids_same_place(c, e);
    assert forall|k: int| 0 <= k < e.nodes.len() implies {
        &&& stands_for(#[trigger] e.nodes[k], h.logs[k])
        &&& terms_ascend(h.logs[k], h.reign)
        &&& h.reign <= e.nodes[k].current_term
    } by {
        assert(stands_for(c.nodes[k], h.logs[k]));
    }
    assert forall|k: int| 0 <= k < e.nodes.len() implies agree(
        h.logs[k],
        h.logs[l],
        #[trigger] e.match_index[k] as int,
    ) by {
        assert(agree(h.logs[k], g, c.match_index[k] as int));
    }
    assert forall|k: int| 0 <= k < e.nodes.len() implies agree(
        h.logs[k],
        h.logs[l],
        (#[trigger] e.nodes[k]).commit_index as int,
    ) && e.nodes[k].commit_index <= h.anchor by {
        assert(agree(h.logs[k], g, c.nodes[k].commit_index as int));
    }
    assert forall|k: int| 0 <= k < c.nodes.len() implies c.nodes[k].commit_index <= (
    #[trigger] e.nodes[k]).commit_index <= h.anchor by {
        assert(c.nodes[k].commit_index <= h.anchor);
    }
    raft_soundness::anchors_stay_committed(c, e, h);
    assert forall|k: int| 0 <= k < e.nodes.len() implies #[trigger] h.tracks(e, l, k) by {
        assert(h.tracks(c, l, k));
    }
}

} // verus!
