//! What a restart makes of a cluster whose members keep files: every member as
//! it was, in a cluster that is sound again.
use vstd::prelude::*;

use crate::raft_build;
use crate::raft_durability;
use crate::raft_guarantees;
use crate::raft_guarantees::leads_to;
use crate::raft_history;
use crate::raft_history::{agree, same_stand, stands_for, term_of};
use crate::raft_laws;
use crate::raft_model;
use crate::raft_model::ClusterV;
use crate::raft_node::{NodeV, Role};
use crate::raft_persistence::{
    all_keep, keeps, kept, members_keep, recorded_somewhere, recorded_term, terms_recorded,
};
use crate::raft_soundness;
use crate::raft_soundness::{reaches, sound, terms_ascend, History};
use crate::raft_steps;
use crate::raft_visibility;
use crate::raft_visibility::{settled, settles};
use crate::snapshot_codec;
use crate::snapshot_codec::PersistentRaftMeta;
use crate::types::{DbErrorV, LogEntryV, NodeId, Term};
use crate::wal;
use crate::wal::WalV;

verus! {

/// What a restart gives back of a member: its log, what it has committed and
/// applied, its state and its snapshot, in no earlier term, and in the same term
/// with the vote that it has cast.
pub open spec fn given_back(node: NodeV, again: NodeV) -> bool {
    &&& same_stand(node, again)
    &&& again.current_term >= node.current_term
    &&& again.current_term == node.current_term && node.voted_for is Some ==> again.voted_for
        == node.voted_for
}

/// The files belong to the members with the ids, all of them.
pub open spec fn files_of(c: ClusterV, ids: Seq<NodeId>, images: Seq<WalV>) -> bool {
    &&& images.len() == ids.len()
    &&& forall|i: int| 0 <= i < c.nodes.len() ==> ids.contains((#[trigger] c.nodes[i]).id)
    &&& forall|k: int|
        0 <= k < ids.len() ==> raft_model::has_member(c.nodes, #[trigger] ids[k])
            && c.nodes[raft_model::position(c.nodes, ids[k])].wal == Some(images[k])
}

/// A member as its files give it back, before it has joined a cluster.
#[verifier::opaque]
pub open spec fn recovered(node: NodeV, again: NodeV) -> bool {
    &&& same_stand(node, again)
    &&& keeps(again)
    &&& recorded_term(again) == recorded_term(node)
    &&& again.current_term >= recorded_term(node)
    &&& node.voted_for is Some ==> recorded_term(node) == node.current_term
    &&& again.current_term == node.current_term && node.voted_for is Some ==> again.voted_for
        == node.voted_for
}

/// No clock of the node has moved yet.
pub open spec fn just_started(node: NodeV) -> bool {
    node.heartbeat_elapsed == 0 && node.election_elapsed == 0
}

/// Files that stand for a node give it back.
proof fn nodes_are_recovered(node: NodeV, term: Term)
    requires
        keeps(node),
    ensures
        NodeV::restored(node.id, Role::Follower, term, node.wal->0) matches Ok(again) && recovered(
            node,
            again,
        ) && again.current_term >= term && (again.current_term == term || again.current_term
            == recorded_term(node) || again.current_term == node.log.last_term())
            && just_started(again),
{
    reveal(keeps);
    reveal(recovered);
    raft_durability::restart_gives_back(node, node.id, Role::Follower, term);
    reveal(NodeV::restored);
    reveal(wal::recovered_node);
}

/// Joining a cluster, a member stays what it was, and its files stand for it.
proof fn enrolling_keeps(node: NodeV, term: Term, leader_id: NodeId)
    requires
        keeps(node),
        node.current_term <= term,
    ensures
        ({
            let again = raft_model::enrolled(node, term, leader_id);
            &&& keeps(again)
            &&& same_stand(node, again)
            &&& again.current_term == term
            &&& recorded_term(again) >= recorded_term(node)
            &&& node.current_term < term ==> recorded_term(again) == term
            &&& node.current_term == term ==> again.voted_for == node.voted_for
        }),
{
    reveal(keeps);
    if node.current_term < term {
        snapshot_codec::meta_reads_back(
            PersistentRaftMeta { current_term: term, voted_for: None },
        );
    }
}

/// A member comes back in a term that some member has on disk.
proof fn terms_are_recovered(c: ClusterV, h: History, l: int, i: int, term: Term)
    requires
        all_keep(c, h, l),
        0 <= i < c.nodes.len(),
        term <= 1 || recorded_somewhere(c, term),
    ensures
        NodeV::restored(c.nodes[i].id, Role::Follower, term, c.nodes[i].wal->0) matches Ok(again)
            && recovered(c.nodes[i], again) && just_started(again) && again.current_term >= term
            && again.id == c.nodes[i].id && (again.current_term <= 1 || recorded_somewhere(
            c,
            again.current_term,
        )),
{
    reveal(terms_recorded);
    let node = c.nodes[i];
    assert(keeps(node));
    nodes_are_recovered(node, term);
    raft_soundness::explained_member(c, h, l, i);
    raft_history::rest_shows(node.log, h.logs[i]);
    assert(node.log.last_term() <= node.current_term) by {
        reveal(History::explains);
        assert(stands_for(c.nodes[i], h.logs[i]));
        if h.logs[i].len() > 0 {
            assert(h.logs[i][h.logs[i].len() - 1].term <= h.reign);
        }
    }
    let again = NodeV::restored(node.id, Role::Follower, term, node.wal->0)->Ok_0;
    assert(again.id == node.id) by {
        reveal(recovered);
    }
    if again.current_term == recorded_term(node) {
        assert(recorded_term(c.nodes[i]) >= again.current_term);
    } else if again.current_term == node.log.last_term() && again.current_term > 1 {
        assert(recorded_somewhere(c, node.current_term));
        let j = choose|j: int|
            0 <= j < c.nodes.len() && recorded_term(#[trigger] c.nodes[j]) >= node.current_term;
        assert(recorded_term(c.nodes[j]) >= again.current_term);
    }
}

/// All members are recovered, in a term that one of them has on disk; and none
/// has a later one there.
#[verifier::rlimit(40)]
proof fn members_are_recovered(
    c: ClusterV,
    h: History,
    l: int,
    ids: Seq<NodeId>,
    images: Seq<WalV>,
    n: nat,
)
    requires
        all_keep(c, h, l),
        files_of(c, ids, images),
        n <= ids.len(),
    ensures
        raft_model::restored_members(ids, Some(images), n) matches Ok((members, term)) && term >= 1
            && (term <= 1 || recorded_somewhere(c, term)) && members.len() == n && forall|k: int|
            0 <= k < n ==> recovered(
                c.nodes[raft_model::position(c.nodes, ids[k])],
                #[trigger] members[k],
            ) && just_started(members[k]) && members[k].id == ids[k] && members[k].current_term
                <= term,
    decreases n,
{
    if n > 0 {
        members_are_recovered(c, h, l, ids, images, (n - 1) as nat);
        let (members, term) = raft_model::restored_members(
            ids,
            Some(images),
            (n - 1) as nat,
        )->Ok_0;
        assert(raft_model::has_member(c.nodes, ids[n - 1]));
        let i = raft_model::position(c.nodes, ids[n - 1]);
        terms_are_recovered(c, h, l, i, term);
    }
}

/// Where the files of a member are.
proof fn place_of_files(c: ClusterV, ids: Seq<NodeId>, images: Seq<WalV>, i: int) -> (k: int)
    requires
        c.wf(),
        files_of(c, ids, images),
        0 <= i < c.nodes.len(),
    ensures
        0 <= k < ids.len(),
        ids[k] == c.nodes[i].id,
        raft_model::position(c.nodes, ids[k]) == i,
{
    assert(ids.contains(c.nodes[i].id));
    let k = choose|k: int| 0 <= k < ids.len() && ids[k] == c.nodes[i].id;
    let j = raft_model::position(c.nodes, ids[k]);
    assert(raft_model::has_member(c.nodes, ids[k]));
    assert(c.nodes[j].id == c.nodes[i].id);
    k
}

/// A member as it stands in the cluster that a restart has built.
#[verifier::opaque]
pub open spec fn restarted(node: NodeV, again: NodeV, term: Term) -> bool {
    &&& given_back(node, again)
    &&& keeps(again)
    &&& again.current_term == term
    &&& recorded_term(again) >= recorded_term(node)
}

proof fn joining_restarts(node: NodeV, member: NodeV, term: Term, leader_id: NodeId)
    requires
        recovered(node, member),
        member.current_term <= term,
        node.current_term <= term,
    ensures
        restarted(node, raft_model::enrolled(member, term, leader_id), term),
        member.current_term < term ==> recorded_term(
            raft_model::enrolled(member, term, leader_id),
        ) == term,
{
    reveal(recovered);
    reveal(restarted);
    enrolling_keeps(member, term, leader_id);
}

/// Who has a member's term on disk.
proof fn where_recorded(c: ClusterV, i: int) -> (j: int)
    requires
        terms_recorded(c),
        0 <= i < c.nodes.len(),
        c.nodes[i].current_term > 1,
    ensures
        0 <= j < c.nodes.len(),
        recorded_term(c.nodes[j]) >= c.nodes[i].current_term,
{
    reveal(terms_recorded);
    assert(recorded_somewhere(c, c.nodes[i].current_term));
    choose|j: int|
        0 <= j < c.nodes.len() && recorded_term(#[trigger] c.nodes[j]) >= c.nodes[i].current_term
}

/// The term in which a cluster restarts is not before any that a member was in.
#[verifier::rlimit(40)]
proof fn restarts_reach_all_terms(
    c: ClusterV,
    h: History,
    l: int,
    ids: Seq<NodeId>,
    images: Seq<WalV>,
    i: int,
)
    requires
        all_keep(c, h, l),
        files_of(c, ids, images),
        0 <= i < c.nodes.len(),
    ensures
        raft_model::restored_members(ids, Some(images), ids.len()) is Ok,
        raft_model::restored_members(ids, Some(images), ids.len())->Ok_0.1
            >= c.nodes[i].current_term,
{
    members_are_recovered(c, h, l, ids, images, ids.len());
    let (members, term) = raft_model::restored_members(ids, Some(images), ids.len())->Ok_0;
    if c.nodes[i].current_term > 1 {
        let j = where_recorded(c, i);
        assert(c.wf()) by {
            raft_soundness::explained_place(c, h, l);
        }
        let k = place_of_files(c, ids, images, j);
        assert(recovered(c.nodes[j], members[k]));
        assert(members[k].current_term >= recorded_term(c.nodes[j])) by {
            reveal(recovered);
        }
    }
}

/// A member of the cluster that a restart builds, and the one that it was.
#[verifier::rlimit(40)]
proof fn restarted_member(
    c: ClusterV,
    h: History,
    l: int,
    ids: Seq<NodeId>,
    images: Seq<WalV>,
    q: int,
) -> (i: int)
    requires
        all_keep(c, h, l),
        ids.len() >= 3,
        ids.no_duplicates(),
        files_of(c, ids, images),
        0 <= q < ids.len(),
    ensures
        raft_model::built(ids, Some(images)) matches Ok(again) && again.nodes.len() == ids.len()
            && 0 <= i < c.nodes.len() && restarted(
            c.nodes[i],
            again.nodes[q],
            again.current_term,
        ) && (again.current_term <= 1 || recorded_somewhere(c, again.current_term)
            || recorded_term(again.nodes[q]) == again.current_term),
        raft_model::built(ids, Some(images))->Ok_0.nodes[q].id == c.nodes[i].id,
{
    members_are_recovered(c, h, l, ids, images, ids.len());
    raft_build::no_duplicate_means_distinct(ids, 0);
    let (members, term) = raft_model::restored_members(ids, Some(images), ids.len())->Ok_0;
    raft_guarantees::ordering_keeps_members(members);
    let nodes = raft_model::by_id(members);
    let again = raft_model::built(ids, Some(images))->Ok_0;
    assert(nodes.contains(nodes[q]));
    let m = choose|m: int| 0 <= m < members.len() && members[m] == nodes[q];
    assert(members[m].id == ids[m]);
    let i = raft_model::position(c.nodes, ids[m]);
    assert(raft_model::has_member(c.nodes, ids[m]));
    restarts_reach_all_terms(c, h, l, ids, images, i);
    raft_model::terms_resume(
        nodes,
        term,
        nodes[raft_model::position(nodes, again.leader_id)].log.last_index(),
    );
    assert(members[m].current_term <= term <= again.current_term);
    joining_restarts(c.nodes[i], members[m], again.current_term, again.leader_id);
    i
}

/// Where a member stands in the cluster that a restart builds.
#[verifier::rlimit(40)]
proof fn place_after_restart(
    c: ClusterV,
    h: History,
    l: int,
    ids: Seq<NodeId>,
    images: Seq<WalV>,
    i: int,
) -> (q: int)
    requires
        all_keep(c, h, l),
        ids.len() >= 3,
        ids.no_duplicates(),
        files_of(c, ids, images),
        0 <= i < c.nodes.len(),
    ensures
        raft_model::built(ids, Some(images)) matches Ok(again) && {
            &&& again.nodes.len() == ids.len()
            &&& raft_model::has_member(again.nodes, c.nodes[i].id)
            &&& q == raft_model::position(again.nodes, c.nodes[i].id)
            &&& 0 <= q < again.nodes.len()
            &&& restarted(c.nodes[i], again.nodes[q], again.current_term)
        },
{
    assert(c.wf()) by {
        raft_soundness::explained_place(c, h, l);
    }
    let id = c.nodes[i].id;
    let k = place_of_files(c, ids, images, i);
    members_are_recovered(c, h, l, ids, images, ids.len());
    raft_build::no_duplicate_means_distinct(ids, 0);
    let (members, term) = raft_model::restored_members(ids, Some(images), ids.len())->Ok_0;
    raft_guarantees::ordering_keeps_members(members);
    let nodes = raft_model::by_id(members);
    let again = raft_model::built(ids, Some(images))->Ok_0;
    assert(members[k].id == id);
    assert(members.contains(members[k]));
    assert(nodes.contains(members[k]));
    let p = choose|p: int| 0 <= p < nodes.len() && nodes[p] == members[k];
    assert(again.nodes[p].id == id);
    let q = raft_model::position(again.nodes, id);
    let j = restarted_member(c, h, l, ids, images, q);
    assert(c.nodes[j].id == c.nodes[i].id);
    assert(j == i);
    q
}

/// After a restart the files stand for all members.
proof fn restarted_members_keep(
    c: ClusterV,
    h: History,
    l: int,
    ids: Seq<NodeId>,
    images: Seq<WalV>,
)
    requires
        all_keep(c, h, l),
        ids.len() >= 3,
        ids.no_duplicates(),
        files_of(c, ids, images),
    ensures
        raft_model::built(ids, Some(images)) matches Ok(again) && members_keep(again),
{
    reveal(terms_recorded);
    let first = restarted_member(c, h, l, ids, images, 0);
    let again = raft_model::built(ids, Some(images))->Ok_0;
    let term = again.current_term;
    if recorded_term(again.nodes[0]) == term {
        assert(recorded_somewhere(again, term));
    } else if term > 1 {
        let j = choose|j: int|
            0 <= j < c.nodes.len() && recorded_term(#[trigger] c.nodes[j]) >= term;
        let q = place_after_restart(c, h, l, ids, images, j);
        assert(recorded_term(again.nodes[q]) >= term) by {
            reveal(restarted);
        }
        assert(recorded_somewhere(again, term));
    }
    assert forall|q: int| 0 <= q < again.nodes.len() implies keeps(#[trigger] again.nodes[q])
        && again.nodes[q].current_term == term by {
        let i = restarted_member(c, h, l, ids, images, q);
        reveal(restarted);
    }
}

/// The cluster that a restart builds is valid.
#[verifier::rlimit(40)]
proof fn restarts_are_valid(
    c: ClusterV,
    h: History,
    l: int,
    ids: Seq<NodeId>,
    images: Seq<WalV>,
)
    requires
        all_keep(c, h, l),
        ids.len() >= 3,
        ids.no_duplicates(),
        files_of(c, ids, images),
    ensures
        raft_model::built(ids, Some(images)) matches Ok(again) && again.wf(),
{
    assert(c.wf()) by {
        raft_soundness::explained_place(c, h, l);
    }
    let first = restarted_member(c, h, l, ids, images, 0);
    members_are_recovered(c, h, l, ids, images, ids.len());
    let (members, term) = raft_model::restored_members(ids, Some(images), ids.len())->Ok_0;
    let nodes = raft_model::by_id(members);
    let again = raft_model::built(ids, Some(images))->Ok_0;
    assert forall|i: int, j: int| 0 <= i < j < members.len() implies (#[trigger] members[i]).id
        != (#[trigger] members[j]).id by {
        assert(members[i].id == ids[i] && members[j].id == ids[j]);
    }
    raft_build::ordering_ascends(members);
    raft_guarantees::ordering_keeps_members(members);
    highest_rank_has_committed_most(members, ids.len());
    let best = raft_model::highest_rank(members, ids.len());
    assert(members[best].id == again.leader_id);
    assert(raft_model::has_member(members, again.leader_id));
    assert(raft_model::has_member(nodes, again.leader_id));
    let at = raft_model::position(nodes, again.leader_id);
    assert(nodes[at].id == again.leader_id);
    assert(again.nodes[at].id == again.leader_id);
    assert(raft_model::ids_ascend(again.nodes)) by {
        assert forall|i: int, j: int| 0 <= i < j < again.nodes.len() implies (
        #[trigger] again.nodes[i]).id < (#[trigger] again.nodes[j]).id by {
            assert(nodes[i].id < nodes[j].id);
        }
    }
    restarts_are_no_longer(c, ids, images);
    assert forall|q: int| 0 <= q < again.nodes.len() implies #[trigger] again.member_ok(q) by {
        assert(nodes.contains(nodes[q]));
        let m = choose|m: int| 0 <= m < members.len() && members[m] == nodes[q];
        assert(just_started(members[m]));
        restarted_members_are_valid(c, h, l, ids, images, q);
        restarted_members_are_valid(c, h, l, ids, images, at);
        assert(again.nodes[at].log == nodes[at].log);
    }
}

proof fn restarted_members_are_valid(
    c: ClusterV,
    h: History,
    l: int,
    ids: Seq<NodeId>,
    images: Seq<WalV>,
    q: int,
)
    requires
        all_keep(c, h, l),
        c.wf(),
        ids.len() >= 3,
        ids.no_duplicates(),
        files_of(c, ids, images),
        0 <= q < ids.len(),
    ensures
        raft_model::built(ids, Some(images)) matches Ok(again) && again.nodes.len() == ids.len()
            && again.nodes[q].wf() && again.nodes[q].log.last_index() < u64::MAX,
{
    let i = restarted_member(c, h, l, ids, images, q);
    assert(c.member_ok(i));
    reveal(restarted);
    reveal(keeps);
}

/// There are files for no more than all members.
proof fn restarts_are_no_longer(c: ClusterV, ids: Seq<NodeId>, images: Seq<WalV>)
    requires
        c.wf(),
        ids.no_duplicates(),
        files_of(c, ids, images),
    ensures
        ids.len() <= c.nodes.len(),
{
    let places = Seq::new(ids.len(), |k: int| raft_model::position(c.nodes, ids[k]));
    assert forall|i: int, j: int| 0 <= i < places.len() && 0 <= j < places.len() && i != j implies
        places[i] != places[j] by {
        assert(raft_model::has_member(c.nodes, ids[i]));
        assert(raft_model::has_member(c.nodes, ids[j]));
        assert(c.nodes[places[i]].id == ids[i]);
        assert(c.nodes[places[j]].id == ids[j]);
    }
    places.unique_seq_to_set();
    let all = vstd::set_lib::set_int_range(0, c.nodes.len() as int);
    vstd::set_lib::lemma_int_range(0, c.nodes.len() as int);
    assert(places.to_set().subset_of(all)) by {
        assert forall|p: int| places.to_set().contains(p) implies all.contains(p) by {
            let k = choose|k: int| 0 <= k < places.len() && places[k] == p;
            assert(raft_model::has_member(c.nodes, ids[k]));
        }
    }
    vstd::set_lib::lemma_len_subset(places.to_set(), all);
}

/// A restart gives back every member of a cluster whose files stand for it: with
/// the files that the members have, in whatever order, the cluster is built, and
/// in it stands each of them with its log, its commit index and its state. The
/// files stand for the members of that cluster again.
pub proof fn restarts_give_back(c: ClusterV, ids: Seq<NodeId>, images: Seq<WalV>)
    requires
        kept(c),
        ids.len() >= 3,
        ids.no_duplicates(),
        files_of(c, ids, images),
    ensures
        raft_model::built(ids, Some(images)) matches Ok(again) && again.nodes.len() == ids.len()
            && members_keep(again) && forall|i: int|
            0 <= i < c.nodes.len() ==> raft_model::has_member(
                again.nodes,
                (#[trigger] c.nodes[i]).id,
            ) && given_back(
                c.nodes[i],
                again.nodes[raft_model::position(again.nodes, c.nodes[i].id)],
            ),
{
    let l = c.leader_at();
    let h = choose|h: History| #[trigger] all_keep(c, h, l);
    restarted_members_keep(c, h, l, ids, images);
    let first = restarted_member(c, h, l, ids, images, 0);
    let again = raft_model::built(ids, Some(images))->Ok_0;
    assert forall|i: int| 0 <= i < c.nodes.len() implies raft_model::has_member(
        again.nodes,
        (#[trigger] c.nodes[i]).id,
    ) && given_back(
        c.nodes[i],
        again.nodes[raft_model::position(again.nodes, c.nodes[i].id)],
    ) by {
        let q = place_after_restart(c, h, l, ids, images, i);
        reveal(restarted);
    }
}

/// Two clusters with the same members have them in the same places.
proof fn same_members_same_places(c: ClusterV, d: ClusterV, n: nat)
    requires
        c.wf(),
        d.wf(),
        n <= c.nodes.len(),
        forall|i: int|
            0 <= i < c.nodes.len() ==> raft_model::has_member(d.nodes, (#[trigger] c.nodes[i]).id),
        forall|i: int|
            0 <= i < d.nodes.len() ==> raft_model::has_member(c.nodes, (#[trigger] d.nodes[i]).id),
    ensures
        n <= d.nodes.len(),
        forall|i: int| 0 <= i < n ==> (#[trigger] d.nodes[i]).id == c.nodes[i].id,
    decreases n,
{
    if n > 0 {
        same_members_same_places(c, d, (n - 1) as nat);
        let at = n - 1;
        assert(raft_model::has_member(d.nodes, c.nodes[at].id));
        let p = raft_model::position(d.nodes, c.nodes[at].id);
        assert(d.nodes[p].id == c.nodes[at].id);
        if p < at {
            assert(d.nodes[p].id == c.nodes[p].id);
        }
        assert(raft_model::has_member(c.nodes, d.nodes[at].id));
        let r = raft_model::position(c.nodes, d.nodes[at].id);
        assert(c.nodes[r].id == d.nodes[at].id);
        if r < at {
            assert(d.nodes[r].id == c.nodes[r].id);
        }
    }
}

/// The member that ranks highest has committed as much as anybody.
proof fn highest_rank_has_committed_most(members: Seq<NodeV>, k: nat)
    requires
        k <= members.len(),
    ensures
        k > 0 ==> 0 <= raft_model::highest_rank(members, k) < k,
        forall|j: int|
            0 <= j < k ==> (#[trigger] members[j]).commit_index
                <= members[raft_model::highest_rank(members, k)].commit_index,
    decreases k,
{
    if k > 1 {
        highest_rank_has_committed_most(members, (k - 1) as nat);
    }
}

/// The leader of a restarted cluster has committed as much as anybody, and no
/// log has entries of the cluster's term beyond its own.
#[verifier::rlimit(40)]
proof fn leaders_come_back_first(
    c: ClusterV,
    h: History,
    l: int,
    ids: Seq<NodeId>,
    images: Seq<WalV>,
    again: ClusterV,
)
    requires
        all_keep(c, h, l),
        ids.len() >= 3,
        ids.no_duplicates(),
        files_of(c, ids, images),
        raft_model::built(ids, Some(images)) == Ok::<ClusterV, DbErrorV>(again),
        again.wf(),
        c.term_room(1),
    ensures
        forall|k: int|
            0 <= k < again.nodes.len() ==> (#[trigger] again.nodes[k]).commit_index
                <= again.nodes[again.leader_at()].commit_index && !raft_model::goes_beyond(
                again.nodes[k],
                again.current_term,
                again.nodes[again.leader_at()].log.last_index(),
            ),
{
    members_are_recovered(c, h, l, ids, images, ids.len());
    raft_build::no_duplicate_means_distinct(ids, 0);
    let (members, term) = raft_model::restored_members(ids, Some(images), ids.len())->Ok_0;
    raft_guarantees::ordering_keeps_members(members);
    highest_rank_has_committed_most(members, ids.len());
    let best = raft_model::highest_rank(members, ids.len());
    let nodes = raft_model::by_id(members);
    raft_laws::leader_has_place(again);
    let at = again.leader_at();
    assert forall|k: int| 0 <= k < nodes.len() implies (#[trigger] again.nodes[k]).id
        == nodes[k].id && again.nodes[k].log == nodes[k].log && again.nodes[k].commit_index
        == nodes[k].commit_index by {
        assert(again.nodes[k] == raft_model::enrolled(
            nodes[k],
            again.current_term,
            again.leader_id,
        ));
    }
    let p = raft_model::position(nodes, again.leader_id);
    assert(again.nodes[at].id == nodes[at].id);
    assert(again.nodes[p].id == nodes[p].id);
    assert(p == at);
    assert(nodes.contains(nodes[at]));
    let m = choose|m: int| 0 <= m < members.len() && members[m] == nodes[at];
    assert(members[m].id == ids[m]);
    assert(m == best);
    assert(term < u64::MAX) by {
        if term > 1 {
            let j = choose|j: int|
                0 <= j < c.nodes.len() && recorded_term(#[trigger] c.nodes[j]) >= term;
            recorded_terms_were_reached(c, h, l, j);
        }
    }
    let last = nodes[at].log.last_index();
    raft_model::terms_resume(nodes, term, last);
    assert forall|k: int| 0 <= k < again.nodes.len() implies (
    #[trigger] again.nodes[k]).commit_index <= again.nodes[at].commit_index
        && !raft_model::goes_beyond(again.nodes[k], again.current_term, last) by {
        assert(nodes.contains(nodes[k]));
        let j = choose|j: int| 0 <= j < members.len() && members[j] == nodes[k];
        assert(members[j].commit_index <= members[best].commit_index);
        if again.current_term == term {
            assert(!raft_model::goes_beyond(nodes[k], term, last));
        } else {
            let i = raft_model::position(c.nodes, ids[j]);
            assert(members[j].id == ids[j]);
            assert(raft_model::has_member(c.nodes, ids[j]));
            restarts_reach_all_terms(c, h, l, ids, images, i);
            logs_end_in_reached_terms(c, h, l, i);
            assert(recovered(c.nodes[i], members[j]));
            assert(members[j].log == c.nodes[i].log) by {
                reveal(recovered);
            }
        }
    }
}

/// A member is in the term that it has on disk, or in a later one; and terms
/// have room.
proof fn recorded_terms_were_reached(c: ClusterV, h: History, l: int, j: int)
    requires
        all_keep(c, h, l),
        0 <= j < c.nodes.len(),
        c.term_room(1),
    ensures
        recorded_term(c.nodes[j]) < u64::MAX,
{
    assert(keeps(c.nodes[j]));
    reveal(keeps);
    assert(c.nodes[j].current_term + 1 <= u64::MAX);
}

/// A log ends in a term that its member has reached.
proof fn logs_end_in_reached_terms(c: ClusterV, h: History, l: int, i: int)
    requires
        h.explains(c, l),
        0 <= i < c.nodes.len(),
    ensures
        c.nodes[i].log.last_term() <= h.reign || c.nodes[i].log.last_term() == 0,
        c.nodes[i].log.last_term() <= c.nodes[i].current_term,
{
    raft_soundness::explained_member(c, h, l, i);
    raft_history::rest_shows(c.nodes[i].log, h.logs[i]);
    reveal(History::explains);
    assert(stands_for(c.nodes[i], h.logs[i]));
    if h.logs[i].len() > 0 {
        assert(h.logs[i][h.logs[i].len() - 1].term <= h.reign);
    }
}

/// A member that has committed as much as anybody holds what is anchored.
proof fn most_committed_holds_the_anchor(c: ClusterV, h: History, l: int, i: int)
    requires
        h.explains(c, l),
        0 <= i < c.nodes.len(),
        forall|k: int|
            0 <= k < c.nodes.len() ==> (#[trigger] c.nodes[k]).commit_index
                <= c.nodes[i].commit_index,
    ensures
        agree(h.logs[i], h.logs[l], h.anchor),
{
    raft_soundness::explained_member(c, h, l, i);
    reveal(History::explains);
    if h.anchor == 0 {
        assert(h.logs[i].take(0) =~= h.logs[l].take(0));
    } else {
        let k = choose|k: int|
            0 <= k < c.nodes.len() && (#[trigger] c.nodes[k]).commit_index == h.anchor;
        assert(c.nodes[i].commit_index == h.anchor);
    }
}

/// Where no log goes beyond the leader's in a term that is not before the last
/// leader's, nobody has entries of that term beyond the leader's log.
proof fn short_logs_are_written_by(c: ClusterV, h: History, l: int, term: Term, i: int)
    requires
        h.explains(c, l),
        h.reign <= term,
        0 <= i < c.nodes.len(),
        forall|k: int|
            0 <= k < c.nodes.len() ==> !raft_model::goes_beyond(
                #[trigger] c.nodes[k],
                term,
                c.nodes[i].log.last_index(),
            ),
    ensures
        (History { reign: term, ..h }).written_by(i),
{
    reveal(History::explains);
    let h2 = History { reign: term, ..h };
    raft_soundness::explained_member(c, h, l, i);
    raft_history::rest_shows(c.nodes[i].log, h.logs[i]);
    assert forall|k: int, n: int|
        0 <= k < h2.logs.len() && 0 <= n < h2.logs[k].len() && (#[trigger] h2.logs[k][n]).term
            == h2.reign implies n < h2.logs[i].len() by {
        let f = h.logs[k];
        assert(stands_for(c.nodes[k], f));
        raft_soundness::explained_member(c, h, l, k);
        raft_history::rest_shows(c.nodes[k].log, f);
        assert(terms_ascend(f, h.reign));
        assert(f[n].term <= f[f.len() - 1].term <= h.reign);
        assert(!raft_model::goes_beyond(c.nodes[k], term, c.nodes[i].log.last_index()));
    }
}

/// The history behind a cluster stands behind the one that a restart makes of
/// it, where that one's leader holds what is anchored and nobody has entries of
/// its term beyond its log.
#[verifier::rlimit(40)]
proof fn restarting_is_explained(
    c: ClusterV,
    h: History,
    l: int,
    again: ClusterV,
    i: int,
) -> (after: History)
    requires
        h.explains(c, l),
        again.wf(),
        again.nodes.len() == c.nodes.len(),
        forall|k: int|
            0 <= k < c.nodes.len() ==> same_stand(c.nodes[k], #[trigger] again.nodes[k])
                && again.nodes[k].current_term == again.current_term
                && c.nodes[k].current_term <= again.current_term,
        again.leader_at() == i,
        0 <= i < c.nodes.len(),
        again.next_index == Seq::new(
            c.nodes.len(),
            |k: int| (again.nodes[i].log.last_index() + 1) as u64,
        ),
        forall|k: int|
            0 <= k < c.nodes.len() && k != i ==> #[trigger] again.match_index[k] == 0,
        again.match_index[i] == again.nodes[i].log.last_index(),
        agree(h.logs[i], h.logs[l], h.anchor),
        (History { reign: again.current_term, ..h }).written_by(i),
    ensures
        after.explains(again, i),
        after.logs == h.logs,
        after.anchor == h.anchor,
{
    let d = again;
    let term = again.current_term;
    let h2 = History { reign: term, ..h };
    reveal(History::explains);
    let f = h.logs[i];
    let g = h.logs[l];
    let p = h.anchor;
    assert(stands_for(c.nodes[i], f));
    raft_history::rest_shows(c.nodes[i].log, f);
    assert(d.member_ok(i));
    assert(same_stand(c.nodes[i], d.nodes[i]));
    assert forall|k: int| 0 <= k < d.nodes.len() implies {
        &&& stands_for(#[trigger] d.nodes[k], h2.logs[k])
        &&& terms_ascend(h2.logs[k], h2.reign)
        &&& h2.reign <= d.nodes[k].current_term
    } by {
        assert(stands_for(c.nodes[k], h.logs[k]));
        assert(terms_ascend(h.logs[k], h.reign));
        assert(d.member_ok(k));
    }
    assert forall|k: int| 0 <= k < d.nodes.len() implies agree(
        h2.logs[k],
        h2.logs[i],
        #[trigger] d.match_index[k] as int,
    ) by {
        if k != i {
            assert(h.logs[k].take(0) =~= f.take(0));
        }
    }
    assert forall|k: int| 0 <= k < d.nodes.len() implies agree(
        h2.logs[k],
        h2.logs[i],
        (#[trigger] d.nodes[k]).commit_index as int,
    ) && d.nodes[k].commit_index <= h2.anchor by {
        let commit = c.nodes[k].commit_index as int;
        assert(agree(h.logs[k], g, commit) && commit <= p);
        raft_history::agreeing_reaches_back(f, g, p, commit);
    }
    assert forall|k: int| 0 <= k < c.nodes.len() implies c.nodes[k].commit_index <= (
    #[trigger] d.nodes[k]).commit_index <= h2.anchor by {
        assert(c.nodes[k].commit_index <= h.anchor);
        assert(same_stand(c.nodes[k], d.nodes[k]));
    }
    raft_soundness::anchors_stay_committed(c, d, h2);
    assert forall|k: int| 0 <= k < d.nodes.len() implies #[trigger] h2.tracks(d, i, k) by {
        assert(stands_for(c.nodes[k], h.logs[k]));
        assert(same_stand(c.nodes[k], d.nodes[k]));
        assert(c.nodes[k].commit_index <= p);
    }
    assert(h2.is_anchored(i)) by {
        raft_history::agreeing_reaches_back(f, g, p, p);
        assert(h2.holders(i, p) =~= h.holders(l, p)) by {
            assert forall|k: int| 0 <= k < h.logs.len() implies h2.holders(i, p)[k] == h.holders(
                l,
                p,
            )[k] by {}
        }
        assert forall|k: int|
            0 <= k < h2.logs.len() && reaches(#[trigger] h2.logs[k], term_of(h2.logs[i], p), p) implies agree(
            h2.logs[k],
            h2.logs[i],
            p,
        ) by {
            assert(reaches(h.logs[k], term_of(g, p), p));
        }
    }
    h2
}

/// The members of a restarted cluster stand where they stood, in one term.
#[verifier::rlimit(40)]
pub proof fn restarted_places(c: ClusterV, ids: Seq<NodeId>, images: Seq<WalV>, again: ClusterV)
    requires
        kept(c),
        ids.len() >= 3,
        ids.no_duplicates(),
        files_of(c, ids, images),
        raft_model::built(ids, Some(images)) == Ok::<ClusterV, DbErrorV>(again),
        again.wf(),
    ensures
        members_keep(again),
        again.nodes.len() == c.nodes.len(),
        forall|k: int|
            0 <= k < c.nodes.len() ==> same_stand(c.nodes[k], #[trigger] again.nodes[k])
                && again.nodes[k].current_term == again.current_term
                && c.nodes[k].current_term <= again.current_term,
{
    let l = c.leader_at();
    let h = choose|h: History| #[trigger] all_keep(c, h, l);
    raft_soundness::explained_place(c, h, l);
    restarts_give_back(c, ids, images);
    assert forall|q: int| 0 <= q < again.nodes.len() implies raft_model::has_member(
        c.nodes,
        (#[trigger] again.nodes[q]).id,
    ) by {
        let j = restarted_member(c, h, l, ids, images, q);
        assert(c.nodes[j].id == again.nodes[q].id);
    }
    same_members_same_places(c, again, c.nodes.len());
    same_members_same_places(again, c, again.nodes.len());
    assert forall|k: int| 0 <= k < c.nodes.len() implies same_stand(
        c.nodes[k],
        #[trigger] again.nodes[k],
    ) && again.nodes[k].current_term == again.current_term && c.nodes[k].current_term
        <= again.current_term by {
        let j = restarted_member(c, h, l, ids, images, k);
        assert(c.nodes[j].id == again.nodes[k].id);
        assert(again.nodes[k].id == c.nodes[k].id);
        assert(j == k);
        reveal(restarted);
    }
}

/// Whatever history stands behind a cluster stands behind the restarted one, in
/// a term of its own.
proof fn restarts_are_explained(
    c: ClusterV,
    h: History,
    ids: Seq<NodeId>,
    images: Seq<WalV>,
    again: ClusterV,
) -> (after: History)
    requires
        kept(c),
        h.explains(c, c.leader_at()),
        ids.len() >= 3,
        ids.no_duplicates(),
        files_of(c, ids, images),
        raft_model::built(ids, Some(images)) == Ok::<ClusterV, DbErrorV>(again),
        again.wf(),
        c.term_room(1),
    ensures
        after.explains(again, again.leader_at()),
        after.logs == h.logs,
        after.anchor == h.anchor,
        agree(h.logs[c.leader_at()], h.logs[again.leader_at()], h.anchor),
{
    restarted_places(c, ids, images, again);
    raft_laws::leader_has_place(again);
    let i = again.leader_at();
    assert(same_stand(c.nodes[i], again.nodes[i]));
    let k = choose|k: History| #[trigger] all_keep(c, k, c.leader_at());
    leaders_come_back_first(c, k, c.leader_at(), ids, images, again);
    assert forall|j: int| 0 <= j < c.nodes.len() implies (#[trigger] c.nodes[j]).commit_index
        <= c.nodes[i].commit_index && !raft_model::goes_beyond(
        c.nodes[j],
        again.current_term,
        c.nodes[i].log.last_index(),
    ) by {
        assert(same_stand(c.nodes[j], again.nodes[j]));
    }
    most_committed_holds_the_anchor(c, h, c.leader_at(), i);
    raft_soundness::explained_member(c, h, c.leader_at(), i);
    short_logs_are_written_by(c, h, c.leader_at(), again.current_term, i);
    leaders_start_over(ids, images, again);
    raft_history::agreeing_reaches_back(h.logs[i], h.logs[c.leader_at()], h.anchor, h.anchor);
    restarting_is_explained(c, h, c.leader_at(), again, i)
}

/// A restarted cluster is sound, and its files stand for all of its members: all
/// that holds of clusters that have been running holds of it.
pub proof fn restarts_are_kept(c: ClusterV, ids: Seq<NodeId>, images: Seq<WalV>)
    requires
        kept(c),
        c.term_room(1),
        ids.len() >= 3,
        ids.no_duplicates(),
        files_of(c, ids, images),
    ensures
        raft_model::built(ids, Some(images)) matches Ok(again) && again.wf() && kept(again)
            && sound(again),
{
    let l = c.leader_at();
    let h = choose|h: History| #[trigger] all_keep(c, h, l);
    restarts_are_valid(c, h, l, ids, images);
    let again = raft_model::built(ids, Some(images))->Ok_0;
    let h2 = restarts_are_explained(c, h, ids, images, again);
    restarted_places(c, ids, images, again);
    assert(h2.recordable());
    assert(all_keep(again, h2, again.leader_at()));
    assert(h2.explains(again, again.leader_at()));
}

/// A restart leads on: what was committed before it is committed after it.
pub proof fn restarts_lead_on(c: ClusterV, ids: Seq<NodeId>, images: Seq<WalV>)
    requires
        kept(c),
        c.term_room(1),
        ids.len() >= 3,
        ids.no_duplicates(),
        files_of(c, ids, images),
    ensures
        raft_model::built(ids, Some(images)) matches Ok(again) && leads_to(c, again),
{
    let l = c.leader_at();
    let k = choose|k: History| #[trigger] all_keep(c, k, l);
    restarts_are_valid(c, k, l, ids, images);
    let again = raft_model::built(ids, Some(images))->Ok_0;
    assert forall|h: History| #[trigger] h.explains(c, l) implies exists|g: History| #[trigger]
        g.explains(again, again.leader_at()) && raft_steps::succeeds(
            h,
            l,
            g,
            again.leader_at(),
        ) by {
        let g = restarts_are_explained(c, h, ids, images, again);
        assert(g.explains(again, again.leader_at()));
    }
}

/// What was settled before a restart is settled after it.
#[verifier::rlimit(40)]
pub proof fn restarts_stay_settled(
    c: ClusterV,
    ids: Seq<NodeId>,
    images: Seq<WalV>,
    entry: LogEntryV,
)
    requires
        kept(c),
        c.term_room(1),
        ids.len() >= 3,
        ids.no_duplicates(),
        files_of(c, ids, images),
        settled(c, entry),
    ensures
        raft_model::built(ids, Some(images)) matches Ok(again) && settled(again, entry),
{
    let l = c.leader_at();
    let k = choose|k: History| #[trigger] all_keep(c, k, l);
    restarts_are_valid(c, k, l, ids, images);
    let again = raft_model::built(ids, Some(images))->Ok_0;
    let h = choose|h: History| #[trigger] settles(c, h, l, entry);
    let h2 = restarts_are_explained(c, h, ids, images, again);
    restarted_places(c, ids, images, again);
    assert forall|k: int| 0 <= k < again.nodes.len() implies raft_visibility::knows(
        #[trigger] again.nodes[k],
        entry,
    ) by {
        assert(raft_visibility::knows(c.nodes[k], entry));
        assert(same_stand(c.nodes[k], again.nodes[k]));
    }
    let i = again.leader_at();
    raft_history::agreeing_reaches_back(h.logs[l], h.logs[i], h.anchor, entry.index as int);
    assert(h.logs[l].take(entry.index as int)[entry.index - 1] == h.logs[i].take(
        entry.index as int,
    )[entry.index - 1]);
    assert(settles(again, h2, i, entry));
}

/// What the leader of a cluster that was just built knows of the others.
proof fn leaders_start_over(ids: Seq<NodeId>, images: Seq<WalV>, again: ClusterV)
    requires
        raft_model::built(ids, Some(images)) == Ok::<ClusterV, DbErrorV>(again),
        again.wf(),
    ensures
        ({
            let i = again.leader_at();
            &&& again.next_index == Seq::new(
                again.nodes.len(),
                |k: int| (again.nodes[i].log.last_index() + 1) as u64,
            )
            &&& forall|k: int|
                0 <= k < again.nodes.len() && k != i ==> #[trigger] again.match_index[k] == 0
            &&& again.match_index[i] == again.nodes[i].log.last_index()
        }),
{
    let (members, term) = raft_model::restored_members(ids, Some(images), ids.len())->Ok_0;
    let nodes = raft_model::by_id(members);
    raft_laws::leader_has_place(again);
    let i = again.leader_at();
    assert forall|k: int| 0 <= k < nodes.len() implies (#[trigger] again.nodes[k]).id
        == nodes[k].id && again.nodes[k].log == nodes[k].log by {
        assert(again.nodes[k] == raft_model::enrolled(
            nodes[k],
            again.current_term,
            again.leader_id,
        ));
    }
    let at = raft_model::position(nodes, again.leader_id);
    assert(nodes[i].id == again.leader_id) by {
        assert(again.nodes[i].id == nodes[i].id);
    }
    assert(again.nodes[at].id == nodes[at].id);
    assert(at == i);
    assert forall|k: int| 0 <= k < again.nodes.len() && k != i implies
        #[trigger] again.match_index[k] == 0 by {
        assert(again.nodes[k].id == nodes[k].id);
    }
    assert(again.next_index =~= Seq::new(
        again.nodes.len(),
        |k: int| (again.nodes[i].log.last_index() + 1) as u64,
    ));
}

} // verus!
