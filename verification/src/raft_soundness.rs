//! The invariant of every cluster: behind the members stand whole logs that
//! match, the leader holds whatever anybody has committed, a quorum holds it
//! too, and nobody can be elected who does not.
use vstd::prelude::*;

use crate::raft_durability;
use crate::raft_history;
use crate::raft_history::{agree, match_up, stands_for, takes, term_of};
use crate::raft_laws;
use crate::raft_model::ClusterV;
use crate::raft_node::{NodeV, Role};
use crate::raft_node_laws;
use crate::types::{Index, LogEntryV, Term};

verus! {

/// What stands behind a cluster: the whole log of every member; the last index
/// that a quorum is known to hold for good; and the term of the last leader
/// that took office.
#[verifier::ext_equal]
pub struct History {
    pub logs: Seq<Seq<LogEntryV>>,
    pub anchor: int,
    pub reign: Term,
}

/// How many of the marks are set.
pub open spec fn tally(marks: Seq<bool>) -> nat
    decreases marks.len(),
{
    if marks.len() == 0 {
        0
    } else if marks.last() {
        tally(marks.drop_last()) + 1
    } else {
        tally(marks.drop_last())
    }
}

/// Two majorities have a member in common.
pub proof fn majorities_meet(a: Seq<bool>, b: Seq<bool>) -> (at: int)
    requires
        a.len() == b.len(),
        tally(a) + tally(b) > a.len(),
    ensures
        0 <= at < a.len(),
        a[at],
        b[at],
    decreases a.len(),
{
    if a.last() && b.last() {
        a.len() - 1
    } else {
        majorities_meet(a.drop_last(), b.drop_last())
    }
}

/// Where no fewer marks are set, they are no fewer.
pub proof fn more_marks(a: Seq<bool>, b: Seq<bool>)
    requires
        a.len() == b.len(),
        forall|i: int| 0 <= i < a.len() && a[i] ==> #[trigger] b[i],
    ensures
        tally(a) <= tally(b),
        tally(a) <= a.len(),
    decreases a.len(),
{
    if a.len() > 0 {
        assert forall|i: int| 0 <= i < a.len() - 1 && a.drop_last()[i] implies
            #[trigger] b.drop_last()[i] by {
            assert(a[i]);
            assert(b[i]);
        }
        assert(a[a.len() - 1] ==> b[a.len() - 1]);
        more_marks(a.drop_last(), b.drop_last());
    }
}

/// Where all marks are set, there are as many.
pub proof fn all_marks(marks: Seq<bool>)
    requires
        forall|i: int| 0 <= i < marks.len() ==> #[trigger] marks[i],
    ensures
        tally(marks) == marks.len(),
    decreases marks.len(),
{
    if marks.len() > 0 {
        assert(marks[marks.len() - 1]);
        assert forall|i: int| 0 <= i < marks.len() - 1 implies #[trigger] marks.drop_last()[i] by {
            assert(marks[i]);
        }
        all_marks(marks.drop_last());
    }
}

/// Terms go up along a log, and none is after the last leader's.
pub open spec fn terms_ascend(whole: Seq<LogEntryV>, reign: Term) -> bool {
    &&& forall|a: int, b: int|
        0 <= a <= b < whole.len() ==> (#[trigger] whole[a]).term <= (#[trigger] whole[b]).term
    &&& forall|a: int| 0 <= a < whole.len() ==> (#[trigger] whole[a]).term <= reign
}

/// A log is at least as far as an entry of the term at the index.
pub open spec fn reaches(whole: Seq<LogEntryV>, term: Term, index: int) -> bool {
    let last = term_of(whole, whole.len() as int);
    last > term || (last == term && whole.len() >= index)
}

impl History {
    /// Every member stands for its whole log.
    pub open spec fn members_stand(self, c: ClusterV) -> bool {
        &&& self.logs.len() == c.nodes.len()
        &&& forall|i: int|
            0 <= i < c.nodes.len() ==> {
                &&& stands_for(#[trigger] c.nodes[i], self.logs[i])
                &&& terms_ascend(self.logs[i], self.reign)
                &&& self.reign <= c.nodes[i].current_term
            }
    }

    /// All logs match.
    pub open spec fn all_match(self) -> bool {
        forall|i: int, j: int|
            0 <= i < self.logs.len() && 0 <= j < self.logs.len() ==> match_up(
                #[trigger] self.logs[i],
                #[trigger] self.logs[j],
            )
    }

    /// Nobody has entries of the last leader's term beyond its log.
    pub open spec fn written_by(self, l: int) -> bool {
        forall|i: int, k: int|
            0 <= i < self.logs.len() && 0 <= k < self.logs[i].len() && (
            #[trigger] self.logs[i][k]).term == self.reign ==> k < self.logs[l].len()
    }

    /// What is known to be replicated is.
    pub open spec fn progress_is_true(self, c: ClusterV, l: int) -> bool {
        forall|i: int|
            0 <= i < c.nodes.len() ==> agree(
                self.logs[i],
                self.logs[l],
                #[trigger] c.match_index[i] as int,
            )
    }

    /// What anybody has committed the leader holds, and it is anchored.
    pub open spec fn commits_are_shared(self, c: ClusterV, l: int) -> bool {
        forall|i: int|
            0 <= i < c.nodes.len() ==> agree(
                self.logs[i],
                self.logs[l],
                (#[trigger] c.nodes[i]).commit_index as int,
            ) && c.nodes[i].commit_index <= self.anchor
    }

    /// What is anchored somebody has committed.
    pub open spec fn anchor_is_committed(self, c: ClusterV) -> bool {
        self.anchor == 0 || exists|i: int|
            0 <= i < c.nodes.len() && (#[trigger] c.nodes[i]).commit_index == self.anchor
    }

    /// What is sent next to a member in the leader's term is something on which
    /// it does not agree with the leader yet.
    pub open spec fn tracks(self, c: ClusterV, l: int, i: int) -> bool {
        i != l && c.nodes[i].current_term == self.reign ==> {
            &&& c.next_index[i] > c.nodes[i].log.base_index
            &&& c.next_index[i] <= self.logs[l].len() ==> !agree(
                self.logs[i],
                self.logs[l],
                c.next_index[i] as int,
            )
        }
    }

    pub open spec fn tracks_all(self, c: ClusterV, l: int) -> bool {
        forall|i: int| 0 <= i < c.nodes.len() ==> #[trigger] self.tracks(c, l, i)
    }

    /// Who holds the leader's log through an index.
    pub open spec fn holders(self, l: int, index: int) -> Seq<bool> {
        Seq::new(self.logs.len(), |i: int| agree(self.logs[i], self.logs[l], index))
    }

    /// A quorum holds what is anchored, and so does every log that reaches as
    /// far.
    pub open spec fn is_anchored(self, l: int) -> bool {
        &&& 0 <= self.anchor <= self.logs[l].len()
        &&& tally(self.holders(l, self.anchor)) >= self.logs.len() / 2 + 1
        &&& forall|i: int|
            0 <= i < self.logs.len() && reaches(
                #[trigger] self.logs[i],
                term_of(self.logs[l], self.anchor),
                self.anchor,
            ) ==> agree(self.logs[i], self.logs[l], self.anchor)
    }

    /// Every entry of every log can be recorded.
    pub open spec fn recordable(self) -> bool {
        forall|i: int|
            0 <= i < self.logs.len() ==> raft_durability::all_recordable(#[trigger] self.logs[i])
    }

    /// The leader in office is the one of the last term.
    pub open spec fn in_office(self, c: ClusterV, l: int) -> bool {
        c.nodes[l].role == Role::Leader ==> c.nodes[l].current_term == self.reign
    }

    /// The history stands behind the cluster, whose leader is the member at `l`.
    #[verifier::opaque]
    pub open spec fn explains(self, c: ClusterV, l: int) -> bool {
        &&& c.wf()
        &&& 0 <= l < c.nodes.len()
        &&& l == c.leader_at()
        &&& self.members_stand(c)
        &&& self.all_match()
        &&& self.written_by(l)
        &&& self.progress_is_true(c, l)
        &&& self.commits_are_shared(c, l)
        &&& self.anchor_is_committed(c)
        &&& self.tracks_all(c, l)
        &&& self.is_anchored(l)
        &&& self.in_office(c, l)
    }
}

/// What was committed stays so, where commits never go back and none goes beyond
/// the anchor.
pub proof fn anchors_stay_committed(c: ClusterV, d: ClusterV, h: History)
    requires
        h.anchor_is_committed(c),
        d.nodes.len() == c.nodes.len(),
        forall|k: int|
            0 <= k < c.nodes.len() ==> c.nodes[k].commit_index <= (
            #[trigger] d.nodes[k]).commit_index <= h.anchor,
    ensures
        h.anchor_is_committed(d),
{
    if h.anchor != 0 {
        let i = choose|i: int|
            0 <= i < c.nodes.len() && (#[trigger] c.nodes[i]).commit_index == h.anchor;
        assert(d.nodes[i].commit_index == h.anchor);
    }
}

/// Some history stands behind the cluster.
pub open spec fn sound(c: ClusterV) -> bool {
    exists|h: History| #[trigger] h.explains(c, c.leader_at())
}

/// A member after a step that changes neither its log nor its state, and puts
/// nobody into office.
pub open spec fn rests(before: NodeV, after: NodeV) -> bool {
    &&& raft_history::same_stand(before, after)
    &&& before.current_term <= after.current_term
    &&& after.role == Role::Leader ==> before.role == Role::Leader && after.current_term
        == before.current_term
}

/// A step that changes no log and no state, and nothing that is known.
pub open spec fn all_rest(before: ClusterV, after: ClusterV) -> bool {
    &&& after.nodes.len() == before.nodes.len()
    &&& after.leader_id == before.leader_id
    &&& after.match_index == before.match_index
    &&& after.next_index == before.next_index
    &&& forall|i: int|
        0 <= i < before.nodes.len() ==> rests(before.nodes[i], #[trigger] after.nodes[i])
}

/// Such a step leaves the history as it is.
pub proof fn resting_is_explained(c: ClusterV, d: ClusterV, h: History, l: int)
    requires
        h.explains(c, l),
        all_rest(c, d),
        d.wf(),
    ensures
        h.explains(d, l),
{
    reveal(History::explains);
    assert forall|i: int| 0 <= i < c.nodes.len() implies (#[trigger] d.nodes[i]).id
        == c.nodes[i].id by {}
    raft_laws::same_ids_same_place(c, d);
    assert forall|i: int| 0 <= i < d.nodes.len() implies {
        &&& stands_for(#[trigger] d.nodes[i], h.logs[i])
        &&& terms_ascend(h.logs[i], h.reign)
        &&& h.reign <= d.nodes[i].current_term
    } by {
        assert(stands_for(c.nodes[i], h.logs[i]));
        assert(d.member_ok(i));
    }
    assert(h.commits_are_shared(d, l)) by {
        assert forall|i: int| 0 <= i < d.nodes.len() implies agree(
            h.logs[i],
            h.logs[l],
            (#[trigger] d.nodes[i]).commit_index as int,
        ) && d.nodes[i].commit_index <= h.anchor by {
            assert(c.nodes[i].commit_index <= h.anchor);
        }
    }
    anchors_stay_committed(c, d, h);
    assert forall|i: int| 0 <= i < d.nodes.len() implies #[trigger] h.tracks(d, l, i) by {
        assert(h.tracks(c, l, i));
        assert(h.reign <= c.nodes[i].current_term);
        assert(rests(c.nodes[i], d.nodes[i]));
    }
    assert(rests(c.nodes[l], d.nodes[l]));
}

impl ClusterV {
    /// The cluster with another state of the member at `i` and of what is known
    /// of it.
    pub open spec fn with_member(self, i: int, node: NodeV, matched: Index, next: Index) -> ClusterV {
        ClusterV {
            nodes: self.nodes.update(i, node),
            match_index: self.match_index.update(i, matched),
            next_index: self.next_index.update(i, next),
            ..self
        }
    }
}

/// Terms go up along what was taken.
proof fn taken_logs_ascend(c: ClusterV, h: History, l: int, i: int, after: Seq<LogEntryV>)
    requires
        h.members_stand(c),
        0 <= i < c.nodes.len(),
        0 <= l < c.nodes.len(),
        takes(h.logs[i], h.logs[l], after),
    ensures
        terms_ascend(after, h.reign),
{
    let f = h.logs[i];
    let g = h.logs[l];
    assert(stands_for(c.nodes[l], g));
    assert(stands_for(c.nodes[i], f));
    // Every entry of the new log stands in the old one or in the leader's.
    assert forall|k: int| 0 <= k < after.len() implies (#[trigger] after[k]) == f[k] && k
        < f.len() || after[k] == g[k] && k < g.len() by {}
    if after.is_prefix_of(f) {
        assert forall|a: int, b: int| 0 <= a <= b < after.len() implies (#[trigger] after[a]).term
            <= (#[trigger] after[b]).term by {
            assert(after[a] == f[a] && after[b] == f[b]);
        }
    } else {
        assert forall|a: int, b: int| 0 <= a <= b < after.len() implies (#[trigger] after[a]).term
            <= (#[trigger] after[b]).term by {
            assert(after[a] == g[a] && after[b] == g[b]);
        }
    }
}

/// What was taken matches all logs.
proof fn taken_logs_match(h: History, l: int, i: int, after: Seq<LogEntryV>)
    requires
        h.all_match(),
        0 <= i < h.logs.len(),
        0 <= l < h.logs.len(),
        takes(h.logs[i], h.logs[l], after),
    ensures
        (History { logs: h.logs.update(i, after), ..h }).all_match(),
{
    let h2 = History { logs: h.logs.update(i, after), ..h };
    let f = h.logs[i];
    let g = h.logs[l];
    assert forall|a: int, b: int| 0 <= a < h2.logs.len() && 0 <= b < h2.logs.len() implies match_up(
        #[trigger] h2.logs[a],
        #[trigger] h2.logs[b],
    ) by {
        let first = if a != i {
            h.logs[a]
        } else if after.is_prefix_of(f) {
            f
        } else {
            g
        };
        let second = if b != i {
            h.logs[b]
        } else if after.is_prefix_of(f) {
            f
        } else {
            g
        };
        assert(match_up(first, second));
        beginnings_match(first, second, h2.logs[a], h2.logs[b]);
    }
}

/// Still nobody has entries of the last leader's term beyond its log.
proof fn taken_logs_are_written_by(h: History, l: int, i: int, after: Seq<LogEntryV>)
    requires
        h.written_by(l),
        0 <= i < h.logs.len(),
        0 <= l < h.logs.len(),
        i != l,
        takes(h.logs[i], h.logs[l], after),
    ensures
        (History { logs: h.logs.update(i, after), ..h }).written_by(l),
{
    let h2 = History { logs: h.logs.update(i, after), ..h };
    let f = h.logs[i];
    let g = h.logs[l];
    assert forall|k: int, n: int|
        0 <= k < h2.logs.len() && 0 <= n < h2.logs[k].len() && (#[trigger] h2.logs[k][n]).term
            == h2.reign implies n < h2.logs[l].len() by {
        if k != i {
            assert(h.logs[k][n].term == h.reign);
        } else if after.is_prefix_of(f) {
            assert(f[n] == after[n]);
        } else {
            assert(g[n] == after[n]);
        }
    }
}

/// What was taken can be recorded, where everything could.
pub proof fn taken_logs_are_recordable(h: History, l: int, i: int, after: Seq<LogEntryV>)
    requires
        h.recordable(),
        0 <= i < h.logs.len(),
        0 <= l < h.logs.len(),
        takes(h.logs[i], h.logs[l], after),
    ensures
        (History { logs: h.logs.update(i, after), ..h }).recordable(),
{
    let h2 = History { logs: h.logs.update(i, after), ..h };
    assert forall|k: int| 0 <= k < h2.logs.len() implies raft_durability::all_recordable(
        #[trigger] h2.logs[k],
    ) by {
        assert(raft_durability::all_recordable(h.logs[k]));
        assert(raft_durability::all_recordable(h.logs[l]));
        if k == i {
            assert forall|n: int| 0 <= n < after.len() implies crate::wal_codec::recordable(
                #[trigger] after[n],
            ) by {
                if after.is_prefix_of(h.logs[i]) {
                    assert(after[n] == h.logs[i][n]);
                } else {
                    assert(after[n] == h.logs[l][n]);
                }
            }
        }
    }
}

/// What is anchored stays so.
proof fn taken_logs_stay_anchored(
    c: ClusterV,
    h: History,
    l: int,
    i: int,
    after: Seq<LogEntryV>,
)
    requires
        h.explains(c, l),
        0 <= i < c.nodes.len(),
        i != l,
        takes(h.logs[i], h.logs[l], after),
    ensures
        (History { logs: h.logs.update(i, after), ..h }).is_anchored(l),
{
    reveal(History::explains);
    let h2 = History { logs: h.logs.update(i, after), ..h };
    let f = h.logs[i];
    let g = h.logs[l];
    let p = h.anchor;
    assert(tally(h2.holders(l, p)) >= tally(h.holders(l, p))) by {
        let old_marks = h.holders(l, p);
        let new_marks = h2.holders(l, p);
        assert forall|k: int| 0 <= k < old_marks.len() && old_marks[k] implies
            #[trigger] new_marks[k] by {
            if k == i {
                raft_history::taking_keeps_agreement(f, g, after, p);
            }
        }
        more_marks(old_marks, new_marks);
    }
    assert forall|k: int|
        0 <= k < h2.logs.len() && reaches(#[trigger] h2.logs[k], term_of(h2.logs[l], p), p) implies agree(
        h2.logs[k],
        h2.logs[l],
        p,
    ) by {
        if k != i {
            assert(reaches(h.logs[k], term_of(g, p), p));
        } else {
            taken_logs_hold_the_anchor(h, c, l, i, after);
        }
    }
}

/// A member takes of the leader's log.
spec fn takes_of_the_leader(
    c: ClusterV,
    h: History,
    l: int,
    i: int,
    node: NodeV,
    after: Seq<LogEntryV>,
    matched: Index,
    next: Index,
) -> bool {
    &&& h.explains(c, l)
    &&& 0 <= i < c.nodes.len()
    &&& i != l
    &&& takes(h.logs[i], h.logs[l], after)
    &&& stands_for(node, after)
    &&& c.nodes[i].current_term <= node.current_term
    &&& c.nodes[i].commit_index <= node.commit_index
    &&& agree(after, h.logs[l], node.commit_index as int)
    &&& node.commit_index <= h.anchor
    &&& matched == c.match_index[i] || agree(after, h.logs[l], matched as int)
    &&& node.current_term == h.reign ==> next > node.log.base_index && (next <= h.logs[l].len()
        ==> !agree(after, h.logs[l], next as int))
    &&& c.with_member(i, node, matched, next).wf()
    &&& node.id == c.nodes[i].id
}

/// Everybody still stands for a log.
proof fn taken_logs_are_stood_for(
    c: ClusterV,
    h: History,
    l: int,
    i: int,
    node: NodeV,
    after: Seq<LogEntryV>,
    matched: Index,
    next: Index,
)
    requires
        takes_of_the_leader(c, h, l, i, node, after, matched, next),
    ensures
        ({
            let d = c.with_member(i, node, matched, next);
            let h2 = History { logs: h.logs.update(i, after), ..h };
            forall|k: int|
                0 <= k < d.nodes.len() ==> {
                    &&& stands_for(#[trigger] d.nodes[k], h2.logs[k])
                    &&& terms_ascend(h2.logs[k], h2.reign)
                    &&& h2.reign <= d.nodes[k].current_term
                }
        }),
{
    reveal(History::explains);
    let d = c.with_member(i, node, matched, next);
    let h2 = History { logs: h.logs.update(i, after), ..h };
    let f = h.logs[i];
    let g = h.logs[l];
    taken_logs_ascend(c, h, l, i, after);
    assert forall|k: int| 0 <= k < d.nodes.len() implies {
        &&& stands_for(#[trigger] d.nodes[k], h2.logs[k])
        &&& terms_ascend(h2.logs[k], h2.reign)
        &&& h2.reign <= d.nodes[k].current_term
    } by {
        assert(stands_for(c.nodes[k], h.logs[k]));
    }
}

/// What is known of the logs still agrees.
proof fn taken_logs_are_known(
    c: ClusterV,
    h: History,
    l: int,
    i: int,
    node: NodeV,
    after: Seq<LogEntryV>,
    matched: Index,
    next: Index,
)
    requires
        takes_of_the_leader(c, h, l, i, node, after, matched, next),
    ensures
        ({
            let d = c.with_member(i, node, matched, next);
            let h2 = History { logs: h.logs.update(i, after), ..h };
            forall|k: int|
                0 <= k < d.nodes.len() ==> agree(
                    h2.logs[k],
                    h2.logs[l],
                    #[trigger] d.match_index[k] as int,
                )
        }),
{
    reveal(History::explains);
    let d = c.with_member(i, node, matched, next);
    let h2 = History { logs: h.logs.update(i, after), ..h };
    let f = h.logs[i];
    let g = h.logs[l];
    assert forall|k: int| 0 <= k < d.nodes.len() implies agree(
        h2.logs[k],
        h2.logs[l],
        #[trigger] d.match_index[k] as int,
    ) by {
        assert(agree(h.logs[k], g, c.match_index[k] as int));
        if k == i && matched == c.match_index[i] {
            raft_history::taking_keeps_agreement(f, g, after, matched as int);
        }
    }
}

/// What is committed still agrees.
proof fn taken_logs_are_committed(
    c: ClusterV,
    h: History,
    l: int,
    i: int,
    node: NodeV,
    after: Seq<LogEntryV>,
    matched: Index,
    next: Index,
)
    requires
        takes_of_the_leader(c, h, l, i, node, after, matched, next),
    ensures
        ({
            let d = c.with_member(i, node, matched, next);
            let h2 = History { logs: h.logs.update(i, after), ..h };
            forall|k: int|
                0 <= k < d.nodes.len() ==> agree(
                    h2.logs[k],
                    h2.logs[l],
                    (#[trigger] d.nodes[k]).commit_index as int,
                ) && c.nodes[k].commit_index <= d.nodes[k].commit_index <= h2.anchor
        }),
{
    reveal(History::explains);
    let d = c.with_member(i, node, matched, next);
    let h2 = History { logs: h.logs.update(i, after), ..h };
    let f = h.logs[i];
    let g = h.logs[l];
    assert forall|k: int| 0 <= k < d.nodes.len() implies agree(
        h2.logs[k],
        h2.logs[l],
        (#[trigger] d.nodes[k]).commit_index as int,
    ) && c.nodes[k].commit_index <= d.nodes[k].commit_index <= h2.anchor by {
        assert(c.nodes[k].commit_index <= h.anchor);
    }
}

/// The leader still knows where everybody is.
proof fn taken_logs_are_tracked(
    c: ClusterV,
    h: History,
    l: int,
    i: int,
    node: NodeV,
    after: Seq<LogEntryV>,
    matched: Index,
    next: Index,
)
    requires
        takes_of_the_leader(c, h, l, i, node, after, matched, next),
    ensures
        ({
            let d = c.with_member(i, node, matched, next);
            let h2 = History { logs: h.logs.update(i, after), ..h };
            forall|k: int| 0 <= k < d.nodes.len() ==> #[trigger] h2.tracks(d, l, k)
        }),
{
    reveal(History::explains);
    let d = c.with_member(i, node, matched, next);
    let h2 = History { logs: h.logs.update(i, after), ..h };
    let f = h.logs[i];
    let g = h.logs[l];
    assert forall|k: int| 0 <= k < d.nodes.len() implies #[trigger] h2.tracks(d, l, k) by {
        assert(h.tracks(c, l, k));
        assert(stands_for(c.nodes[l], g));
    }
}

/// A member other than the leader takes of the leader's log.
#[verifier::spinoff_prover]
#[verifier::rlimit(60)]
pub proof fn taking_is_explained(
    c: ClusterV,
    h: History,
    l: int,
    i: int,
    node: NodeV,
    after: Seq<LogEntryV>,
    matched: Index,
    next: Index,
)
    requires
        h.explains(c, l),
        0 <= i < c.nodes.len(),
        i != l,
        takes(h.logs[i], h.logs[l], after),
        stands_for(node, after),
        c.nodes[i].current_term <= node.current_term,
        c.nodes[i].commit_index <= node.commit_index,
        agree(after, h.logs[l], node.commit_index as int),
        node.commit_index <= h.anchor,
        matched == c.match_index[i] || agree(after, h.logs[l], matched as int),
        node.current_term == h.reign ==> next > node.log.base_index && (next <= h.logs[l].len()
            ==> !agree(after, h.logs[l], next as int)),
        c.with_member(i, node, matched, next).wf(),
        node.id == c.nodes[i].id,
    ensures
        (History { logs: h.logs.update(i, after), ..h }).explains(
            c.with_member(i, node, matched, next),
            l,
        ),
{
    let d = c.with_member(i, node, matched, next);
    let h2 = History { logs: h.logs.update(i, after), ..h };
    assert(takes_of_the_leader(c, h, l, i, node, after, matched, next));
    explained_place(c, h, l);
    assert forall|k: int| 0 <= k < c.nodes.len() implies (#[trigger] d.nodes[k]).id
        == c.nodes[k].id by {}
    raft_laws::same_ids_same_place(c, d);
    taken_logs_are_stood_for(c, h, l, i, node, after, matched, next);
    taken_logs_are_known(c, h, l, i, node, after, matched, next);
    taken_logs_are_committed(c, h, l, i, node, after, matched, next);
    taken_logs_are_tracked(c, h, l, i, node, after, matched, next);
    taken_logs_stay_anchored(c, h, l, i, after);
    reveal(History::explains);
    taken_logs_match(h, l, i, after);
    taken_logs_are_written_by(h, l, i, after);
    anchors_stay_committed(c, d, h2);
}

/// Where the beginning of a log agrees with another, the log does.
proof fn beginnings_agree(
    after: Seq<LogEntryV>,
    f: Seq<LogEntryV>,
    g: Seq<LogEntryV>,
    index: int,
)
    requires
        after.is_prefix_of(f),
        agree(after, g, index),
    ensures
        agree(f, g, index),
{
    assert(after.take(index) =~= f.take(index));
}

/// Beginnings of logs that match do so too.
proof fn beginnings_match(
    f: Seq<LogEntryV>,
    g: Seq<LogEntryV>,
    a: Seq<LogEntryV>,
    b: Seq<LogEntryV>,
)
    requires
        match_up(f, g),
        a.is_prefix_of(f),
        b.is_prefix_of(g),
    ensures
        match_up(a, b),
{
    assert forall|index: int|
        1 <= index <= a.len() && index <= b.len() && #[trigger] term_of(a, index) == term_of(b, index)
        implies agree(a, b, index) by {
        assert(a[index - 1] == f[index - 1]);
        assert(b[index - 1] == g[index - 1]);
        assert(term_of(f, index) == term_of(g, index));
        assert(a.take(index) =~= f.take(index));
        assert(b.take(index) =~= g.take(index));
    }
}

/// A log that has taken of the leader's and reaches as far as the anchor holds
/// it.
proof fn taken_logs_hold_the_anchor(
    h: History,
    c: ClusterV,
    l: int,
    i: int,
    after: Seq<LogEntryV>,
)
    requires
        h.explains(c, l),
        0 <= i < c.nodes.len(),
        takes(h.logs[i], h.logs[l], after),
        reaches(after, term_of(h.logs[l], h.anchor), h.anchor),
    ensures
        agree(after, h.logs[l], h.anchor),
{
    reveal(History::explains);
    let f = h.logs[i];
    let g = h.logs[l];
    let p = h.anchor;
    assert(stands_for(c.nodes[i], f));
    assert(stands_for(c.nodes[l], g));
    let last = after.len() as int;
    if after.is_prefix_of(f) {
        if last > 0 {
            assert(after[last - 1] == f[last - 1]);
            assert(f[last - 1].term <= f[f.len() - 1].term);
        }
        assert(reaches(f, term_of(g, p), p));
        raft_history::taking_keeps_agreement(f, g, after, p);
    } else {
        if last > 0 {
            assert(after[last - 1] == g[last - 1]);
        }
        if last < p {
            if last > 0 {
                assert(g[last - 1].term <= g[p - 1].term);
            }
            assert(false);
        }
        assert(after.take(p) =~= g.take(p));
    }
}

/// What a history says of the leader and of one other member.
pub proof fn explained_member(c: ClusterV, h: History, l: int, i: int)
    requires
        h.explains(c, l),
        0 <= i < c.nodes.len(),
    ensures
        c.wf(),
        c.member_ok(l),
        c.member_ok(i),
        0 <= l < c.nodes.len(),
        l == c.leader_at(),
        h.logs.len() == c.nodes.len(),
        stands_for(c.nodes[l], h.logs[l]),
        stands_for(c.nodes[i], h.logs[i]),
        h.reign <= c.nodes[i].current_term,
        c.nodes[l].role == Role::Leader ==> c.nodes[l].current_term == h.reign,
        match_up(h.logs[i], h.logs[l]),
        agree(h.logs[i], h.logs[l], c.match_index[i] as int),
        agree(h.logs[i], h.logs[l], c.nodes[i].commit_index as int),
        c.nodes[i].commit_index <= h.anchor <= h.logs[l].len(),
        c.nodes[l].commit_index <= h.anchor,
        h.tracks(c, l, i),
{
    reveal(History::explains);
    assert(c.nodes[l].commit_index <= h.anchor);
}

/// Where the leader of an explained cluster stands.
pub proof fn explained_place(c: ClusterV, h: History, l: int)
    requires
        h.explains(c, l),
    ensures
        c.wf(),
        0 <= l < c.nodes.len(),
        l == c.leader_at(),
        h.logs.len() == c.nodes.len(),
        c.nodes[l].role == Role::Leader ==> c.nodes[l].current_term == h.reign,
{
    reveal(History::explains);
}

/// Everybody but the member at `i` has the same log in both histories, and both
/// have the same anchor and the same last leader.
pub open spec fn only_log(before: History, after: History, i: int) -> bool {
    &&& after.logs.len() == before.logs.len()
    &&& after.anchor == before.anchor
    &&& after.reign == before.reign
    &&& forall|k: int|
        0 <= k < before.logs.len() && k != i ==> #[trigger] after.logs[k] == before.logs[k]
}

/// What a cluster with one member changed amounts to.
pub proof fn member_changes(c: ClusterV, i: int, node: NodeV, matched: Index, next: Index)
    requires
        c.wf(),
        0 <= i < c.nodes.len(),
    ensures
        c.with_node(i, node) == c.with_member(i, node, c.match_index[i], c.next_index[i]),
        c.with_node(i, node).with_next(i, next) == c.with_member(i, node, c.match_index[i], next),
        c.with_next(i, next) == c.with_member(i, c.nodes[i], c.match_index[i], next),
        c.with_node(i, node).with_progress(i, matched) == c.with_member(
            i,
            node,
            matched,
            (matched + 1) as u64,
        ),
{
    assert(c.with_node(i, node) =~= c.with_member(i, node, c.match_index[i], c.next_index[i]));
    assert(c.with_node(i, node).with_next(i, next) =~= c.with_member(
        i,
        node,
        c.match_index[i],
        next,
    ));
    assert(c.with_next(i, next) =~= c.with_member(i, c.nodes[i], c.match_index[i], next));
    assert(c.with_node(i, node).with_progress(i, matched) =~= c.with_member(
        i,
        node,
        matched,
        (matched + 1) as u64,
    ));
}

/// Taking the leader's snapshot, and what comes of it.
pub proof fn installing_is_explained(c: ClusterV, h: History, l: int, i: int) -> (after: History)
    requires
        h.explains(c, l),
        0 <= i < c.nodes.len(),
        i != l,
        c.nodes[l].role == Role::Leader,
        c.nodes[l].snapshot is Some,
        c.next_index[i] <= c.nodes[l].log.base_index,
    ensures
        ({
            let leader = c.nodes[l];
            let data = leader.snapshot->0;
            let (node, result) = c.nodes[i].install_snapshot(
                leader.current_term,
                data,
                leader.commit_index,
            );
            let d = c.with_node(i, node);
            let e = d.with_progress(i, data.last_included_index);
            &&& only_log(h, after, i)
            &&& h.recordable() ==> after.recordable()
            &&& node.current_term == c.nodes[i].current_term
            &&& c.nodes[i].wal is None ==> node.wal is None
            &&& result is Err ==> after.explains(d, l) && c.nodes[i].wal is Some
            &&& (result is Ok && !result->Ok_0) ==> after.explains(d, l)
                && c.nodes[i].current_term > h.reign
            &&& (result is Ok && result->Ok_0) ==> after.explains(e, l)
                && c.nodes[i].current_term == h.reign && agree(
                after.logs[i],
                after.logs[l],
                e.next_index[i] - 1,
            ) && e.next_index[i] == leader.log.base_index + 1
        }),
{
    let leader = c.nodes[l];
    let data = leader.snapshot->0;
    let f = h.logs[i];
    let g = h.logs[l];
    let most = (u64::MAX - 1) as u64;
    explained_member(c, h, l, i);
    raft_laws::valid_is_bounded(c);
    let base = leader.log.base_index;
    assert(leader.current_term == c.nodes[i].current_term ==> !agree(f, g, base as int)) by {
        if agree(f, g, base as int) {
            raft_history::agreeing_reaches_back(f, g, base as int, c.next_index[i] as int);
        }
    }
    let after = raft_history::installing_takes(c.nodes[i], leader, data, f, g);
    raft_node_laws::installing_keeps(
        c.nodes[i],
        leader.current_term,
        data,
        leader.commit_index,
    );
    let (node, result) = c.nodes[i].install_snapshot(
        leader.current_term,
        data,
        leader.commit_index,
    );
    raft_laws::replacing_keeps(c, i, node, u64::MAX, most);
    let d = c.with_node(i, node);
    raft_laws::tracking_keeps(d, i, 1, base);
    member_changes(c, i, node, base, 1);
    let h2 = History { logs: h.logs.update(i, after), ..h };
    if h.recordable() {
        taken_logs_are_recordable(h, l, i, after);
    }
    if (result is Ok && result->Ok_0) {
        assert(after.take(base as int) =~= g.take(base as int));
        assert(!agree(after, g, base + 1));
        taking_is_explained(c, h, l, i, node, after, base, (base + 1) as u64);
    } else {
        assert(node.current_term == h.reign ==> !agree(after, g, c.next_index[i] as int)) by {
            let next = c.next_index[i] as int;
            assert(after.is_prefix_of(f)) by {
                assert(f.take(f.len() as int) =~= f);
            }
            if agree(after, g, next) && node.current_term == h.reign {
                beginnings_agree(after, f, g, next);
            }
        }
        taking_is_explained(c, h, l, i, node, after, c.match_index[i], c.next_index[i]);
    }
    h2
}

/// Taking the leader's entries, and what comes of it.
pub proof fn appending_is_explained(c: ClusterV, h: History, l: int, i: int) -> (after: History)
    requires
        h.explains(c, l),
        0 <= i < c.nodes.len(),
        i != l,
        c.nodes[l].role == Role::Leader,
        c.nodes[l].log.base_index < c.next_index[i] <= c.nodes[l].log.last_index() + 1,
    ensures
        ({
            let leader = c.nodes[l];
            let prev = (c.next_index[i] - 1) as u64;
            let (node, result) = c.nodes[i].append_entries(
                leader.current_term,
                prev,
                term_of(h.logs[l], prev as int),
                leader.log.entries_from(c.next_index[i]),
                leader.commit_index,
            );
            let d = c.with_node(i, node);
            &&& only_log(h, after, i)
            &&& h.recordable() ==> after.recordable()
            &&& node.current_term == c.nodes[i].current_term
            &&& c.nodes[i].wal is None ==> node.wal is None
            &&& result is Err ==> after.explains(d, l) && c.nodes[i].wal is Some
            &&& (result is Ok && result->Ok_0) ==> after.explains(
                d.with_progress(i, leader.log.last_index()),
                l,
            ) && agree(after.logs[i], after.logs[l], after.logs[l].len() as int)
                && node.commit_index >= leader.commit_index
            &&& (result is Ok && !result->Ok_0) ==> {
                &&& after.explains(d, l)
                &&& prev >= 1 ==> after.explains(d.with_next(i, prev), l)
                &&& c.nodes[i].current_term > h.reign || (prev >= 1 && !agree(
                    h.logs[i],
                    h.logs[l],
                    prev as int,
                ))
            }
        }),
{
    let leader = c.nodes[l];
    let next = c.next_index[i];
    let prev = (next - 1) as u64;
    let f = h.logs[i];
    let g = h.logs[l];
    let most = (u64::MAX - 1) as u64;
    explained_member(c, h, l, i);
    raft_laws::valid_is_bounded(c);
    raft_history::rest_shows(leader.log, g);
    let entries = leader.log.entries_from(next);
    assert(entries == g.skip(prev as int));
    raft_laws::sent_entries_follow(c, l, next);
    let t = term_of(g, prev as int);
    let after = raft_history::appending_takes(c.nodes[i], leader, f, g, prev);
    raft_node_laws::appending_keeps(
        c.nodes[i],
        leader.current_term,
        prev,
        t,
        entries,
        leader.commit_index,
    );
    let (node, result) = c.nodes[i].append_entries(
        leader.current_term,
        prev,
        t,
        entries,
        leader.commit_index,
    );
    raft_laws::replacing_keeps(c, i, node, u64::MAX, most);
    let d = c.with_node(i, node);
    let last = leader.log.last_index();
    raft_laws::tracking_keeps(d, i, 1, last);
    member_changes(c, i, node, last, prev);
    if (result is Ok && result->Ok_0) {
        taking_is_explained(c, h, l, i, node, after, last, (last + 1) as u64);
    } else {
        assert(node.current_term == h.reign && next <= g.len() ==> !agree(after, g, next as int))
            by {
            assert(after.is_prefix_of(f)) by {
                assert(f.take(f.len() as int) =~= f);
            }
            if agree(after, g, next as int) {
                beginnings_agree(after, f, g, next as int);
            }
        }
        taking_is_explained(c, h, l, i, node, after, c.match_index[i], next);
        if result is Ok && prev >= 1 {
            raft_laws::tracking_keeps(d, i, prev, last);
            assert(node.current_term == h.reign ==> prev > node.log.base_index) by {
                if node.current_term == h.reign && prev <= node.log.base_index {
                    raft_history::agreeing_reaches_back(
                        f,
                        g,
                        c.nodes[i].commit_index as int,
                        prev as int,
                    );
                }
            }
            taking_is_explained(c, h, l, i, node, after, c.match_index[i], prev);
        }
    }
    assert(prev == 0 ==> agree(f, g, 0)) by {
        assert(f.take(0) =~= g.take(0));
    }
    if h.recordable() {
        taken_logs_are_recordable(h, l, i, after);
    }
    History { logs: h.logs.update(i, after), ..h }
}

/// What is sent next is never beyond the leader's log.
pub proof fn lowering_is_explained(c: ClusterV, h: History, l: int, i: int)
    requires
        h.explains(c, l),
        0 <= i < c.nodes.len(),
        i != l,
    ensures
        h.explains(c.with_next(i, (c.nodes[l].log.last_index() + 1) as u64), l),
{
    explained_member(c, h, l, i);
    let f = h.logs[i];
    let g = h.logs[l];
    raft_history::rest_shows(c.nodes[l].log, g);
    let last = c.nodes[l].log.last_index();
    raft_laws::tracking_keeps(c, i, (last + 1) as u64, 0);
    member_changes(c, i, c.nodes[i], 0, (last + 1) as u64);
    assert(takes(f, g, f)) by {
        assert(f.take(f.len() as int) =~= f);
    }
    taking_is_explained(c, h, l, i, c.nodes[i], f, c.match_index[i], (last + 1) as u64);
    assert(h.logs.update(i, f) =~= h.logs);
}

/// Catching up keeps a history behind the cluster; and a member in the leader's
/// term catches up, unless its disk fails.
pub proof fn catching_up_is_explained(c: ClusterV, h: History, l: int, i: int, sent: bool) -> (after:
    History)
    requires
        h.explains(c, l),
        0 <= i < c.nodes.len(),
        i != l,
        c.nodes[l].role == Role::Leader,
        sent && c.nodes[i].current_term == h.reign ==> c.next_index[i]
            > c.nodes[l].log.base_index && agree(h.logs[i], h.logs[l], c.next_index[i] - 1),
    ensures
        after.explains(c.catch_up(l, i, sent).0, l),
        only_log(h, after, i),
        c.catch_up(l, i, sent).0.nodes[l] == c.nodes[l],
        ({
            let (d, result) = c.catch_up(l, i, sent);
            &&& (result is Ok && result->Ok_0) ==> agree(
                after.logs[i],
                after.logs[l],
                after.logs[l].len() as int,
            ) && d.nodes[i].commit_index >= c.nodes[l].commit_index
            &&& (result is Ok && !result->Ok_0) ==> c.nodes[i].current_term > h.reign
            &&& result is Err ==> c.nodes[i].wal is Some
        }),
    decreases
            (if sent {
                0int
            } else {
                1int
            }), c.next_index[i],
{
    let leader = c.nodes[l];
    let next = c.next_index[i];
    let f = h.logs[i];
    let g = h.logs[l];
    explained_member(c, h, l, i);
    raft_history::rest_shows(leader.log, g);
    let last = leader.log.last_index();
    if next > last + 1 {
        lowering_is_explained(c, h, l, i);
        let d = c.with_next(i, (last + 1) as u64);
        assert(d.nodes == c.nodes);
        if sent && c.nodes[i].current_term == h.reign {
            raft_history::agreeing_reaches_back(f, g, next - 1, last as int);
        }
        catching_up_is_explained(d, h, l, i, sent)
    } else if next <= leader.log.base_index {
        let data = leader.snapshot->0;
        if sent {
            h
        } else {
            let h2 = installing_is_explained(c, h, l, i);
            let (node, result) = c.nodes[i].install_snapshot(
                leader.current_term,
                data,
                leader.commit_index,
            );
            if (result is Ok && result->Ok_0) {
                let e = c.with_node(i, node).with_progress(i, data.last_included_index);
                let h3 = catching_up_is_explained(e, h2, l, i, true);
                assert(c.catch_up(l, i, sent) == e.catch_up(l, i, true));
                h3
            } else {
                h2
            }
        }
    } else {
        let prev = (next - 1) as u64;
        let prev_term = if prev == 0 {
            Some(0)
        } else {
            leader.log.term_at(prev)
        };
        assert(prev_term == Some(term_of(g, prev as int)));
        let h2 = appending_is_explained(c, h, l, i);
        let (node, result) = c.nodes[i].append_entries(
            leader.current_term,
            prev,
            term_of(g, prev as int),
            leader.log.entries_from(next),
            leader.commit_index,
        );
        let d = c.with_node(i, node);
        if (result is Ok && !result->Ok_0) && next > 1 {
            let e = d.with_next(i, prev);
            let h3 = catching_up_is_explained(e, h2, l, i, sent);
            assert(c.catch_up(l, i, sent) == e.catch_up(l, i, sent));
            h3
        } else {
            h2
        }
    }
}

} // verus!
