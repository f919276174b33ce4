//! What members and clusters are that start from files.
use vstd::prelude::*;

use crate::memlog::MemLogV;
use crate::raft_build;
use crate::raft_calls;
use crate::raft_guarantees;
use crate::raft_laws;
use crate::raft_model;
use crate::raft_model::ClusterV;
use crate::raft_node;
use crate::raft_node::{NodeV, Role};
use crate::raft_votes::end_of;
use crate::state_machine::KvMap;
use crate::types::{DbErrorV, Index, NodeId, Term};
use crate::wal;
use crate::wal::WalV;

verus! {

/// The latest term that files know of: that of the last entry, or the persisted
/// one.
pub open spec fn latest_term(image: WalV) -> Term {
    let logged = end_of(wal::recovered_node(image)->Ok_0.0).0;
    let persisted = image.load_raft_meta()->Ok_0.current_term;
    if persisted > logged {
        persisted
    } else {
        logged
    }
}

/// A member starts from its files with the log, the state, the snapshot and the
/// commit index that they hold, in the latest term that it is given or that they
/// know of; with its vote where that was cast in this very term, and with none
/// otherwise; and with its clocks at the beginning. Where one of the files cannot
/// be read it does not start.
pub proof fn members_start_from_their_files(id: NodeId, role: Role, term: Term, image: WalV)
    ensures
        NodeV::restored(id, role, term, image) is Ok <==> wal::recovered_node(image) is Ok
            && image.load_snapshot() is Ok && image.load_raft_meta() is Ok,
        NodeV::restored(id, role, term, image) matches Ok(node) ==> {
            let meta = image.load_raft_meta()->Ok_0;
            &&& node.id == id && node.role == role
            &&& wal::recovered_node(image) == Ok::<(MemLogV, KvMap, Index), DbErrorV>(
                (node.log, node.state, node.commit_index),
            )
            &&& node.last_applied == node.commit_index
            &&& node.snapshot == image.load_snapshot()->Ok_0
            &&& node.current_term == if latest_term(image) > term {
                latest_term(image)
            } else {
                term
            }
            &&& node.voted_for == if meta.current_term == node.current_term {
                meta.voted_for
            } else {
                None
            }
            &&& node.wal == Some(image)
            &&& node.election_elapsed == 0 && node.heartbeat_elapsed == 0
                && node.election_backoff_rounds == 0
            &&& node.election_timeout_ticks == raft_node::election_timeout(
                id,
                node.current_term,
                0,
            )
        },
{
    reveal(NodeV::restored);
}

/// What the files of a member give back: its log, its state and its commit index.
pub open spec fn recovered(image: WalV) -> (MemLogV, KvMap, Index) {
    wal::recovered_node(image)->Ok_0
}

/// A member right after it started from its files, when `term` is the latest term
/// that is known of.
#[verifier::opaque]
pub open spec fn started_from(node: NodeV, id: NodeId, image: WalV, term: Term) -> bool {
    let meta = image.load_raft_meta();
    &&& meta is Ok
    &&& node.id == id
    &&& node.role == Role::Follower
    &&& wal::recovered_node(image) == Ok::<(MemLogV, KvMap, Index), DbErrorV>(
        (node.log, node.state, node.commit_index),
    )
    &&& latest_term(image) <= node.current_term <= term
    &&& node.voted_for == if meta->Ok_0.current_term == node.current_term {
        meta->Ok_0.voted_for
    } else {
        None
    }
}

/// What the first `k` members are.
proof fn members_start_in_turn(ids: Seq<NodeId>, images: Seq<WalV>, k: nat)
    requires
        raft_model::restored_members(ids, Some(images), k) is Ok,
    ensures
        ({
            let (members, term) = raft_model::restored_members(ids, Some(images), k)->Ok_0;
            &&& members.len() == k
            &&& term >= 1
            &&& term > 1 ==> exists|j: int| 0 <= j < k && latest_term(#[trigger] images[j]) == term
            &&& forall|j: int|
                0 <= j < k ==> started_from(#[trigger] members[j], ids[j], images[j], term)
        }),
    decreases k,
{
    if k > 0 {
        reveal(started_from);
        members_start_in_turn(ids, images, (k - 1) as nat);
        let (before, seen) = raft_model::restored_members(
            ids,
            Some(images),
            (k - 1) as nat,
        )->Ok_0;
        members_start_from_their_files(ids[k - 1], Role::Follower, seen, images[k - 1]);
        let (members, term) = raft_model::restored_members(ids, Some(images), k)->Ok_0;
        assert forall|j: int| 0 <= j < k implies started_from(
            #[trigger] members[j],
            ids[j],
            images[j],
            term,
        ) by {
            if j < k - 1 {
                assert(members[j] == before[j]);
            }
        }
        if term > 1 {
            if term == seen {
                let j = choose|j: int|
                    0 <= j < k - 1 && latest_term(#[trigger] images[j]) == seen;
                assert(latest_term(images[j]) == term);
            } else {
                assert(latest_term(images[k - 1]) == term);
            }
        }
    }
}

/// Putting members in order moves each to a place of its own.
proof fn members_have_places(members: Seq<NodeV>)
    requires
        forall|i: int, j: int|
            0 <= i < j < members.len() ==> (#[trigger] members[i]).id != (
            #[trigger] members[j]).id,
    ensures
        ({
            let nodes = raft_model::by_id(members);
            &&& nodes.len() == members.len()
            &&& raft_model::ids_ascend(nodes)
            &&& forall|j: int|
                0 <= j < members.len() ==> nodes[raft_model::position(
                    nodes,
                    (#[trigger] members[j]).id,
                )] == members[j] && 0 <= raft_model::position(nodes, members[j].id) < nodes.len()
            &&& forall|i: int|
                0 <= i < nodes.len() ==> members.contains(#[trigger] nodes[i])
        }),
{
    raft_build::ordering_ascends(members);
    raft_guarantees::ordering_keeps_members(members);
    let nodes = raft_model::by_id(members);
    assert forall|j: int| 0 <= j < members.len() implies nodes[raft_model::position(
        nodes,
        (#[trigger] members[j]).id,
    )] == members[j] && 0 <= raft_model::position(nodes, members[j].id) < nodes.len() by {
        assert(members.contains(members[j]));
        assert(nodes.contains(members[j]));
        let i = choose|i: int| 0 <= i < nodes.len() && nodes[i] == members[j];
        raft_laws::position_is(nodes, members[j].id, i);
    }
    assert forall|i: int| 0 <= i < nodes.len() implies members.contains(#[trigger] nodes[i]) by {
        assert(nodes.contains(nodes[i]));
    }
}

/// A log goes beyond the leader's exactly where one of the members' does.
proof fn longer_logs_are_members(
    members: Seq<NodeV>,
    ids: Seq<NodeId>,
    images: Seq<WalV>,
    latest: Term,
    last: Index,
)
    requires
        members.len() == ids.len(),
        forall|i: int, j: int|
            0 <= i < j < members.len() ==> (#[trigger] members[i]).id != (
            #[trigger] members[j]).id,
        forall|j: int|
            0 <= j < ids.len() ==> started_from(#[trigger] members[j], ids[j], images[j], latest),
    ensures
        raft_model::resumed_term(raft_model::by_id(members), latest, last) == if latest < u64::MAX
            && exists|j: int| 0 <= j < ids.len() && outgrows(#[trigger] images[j], latest, last) {
            (latest + 1) as u64
        } else {
            latest
        },
{
    reveal(raft_model::resumed_term);
    reveal(started_from);
    members_have_places(members);
    let nodes = raft_model::by_id(members);
    if exists|j: int| 0 <= j < ids.len() && outgrows(#[trigger] images[j], latest, last) {
        let j = choose|j: int| 0 <= j < ids.len() && outgrows(#[trigger] images[j], latest, last);
        assert(started_from(members[j], ids[j], images[j], latest));
        let i = raft_model::position(nodes, members[j].id);
        assert(raft_model::goes_beyond(nodes[i], latest, last));
    }
    if exists|i: int|
        0 <= i < nodes.len() && raft_model::goes_beyond(#[trigger] nodes[i], latest, last) {
        let i = choose|i: int|
            0 <= i < nodes.len() && raft_model::goes_beyond(#[trigger] nodes[i], latest, last);
        assert(members.contains(nodes[i]));
        let j = choose|j: int| 0 <= j < members.len() && members[j] == nodes[i];
        assert(started_from(members[j], ids[j], images[j], latest));
        assert(outgrows(images[j], latest, last));
    }
}

/// The log in the files ends in the term, beyond an index.
pub open spec fn outgrows(image: WalV, term: Term, last: Index) -> bool {
    end_of(recovered(image).0).0 == term && end_of(recovered(image).0).1 > last
}

/// The member at a place holds what the files hold, in the cluster's term, and
/// leads or follows.
pub open spec fn starts_from(c: ClusterV, i: int, id: NodeId, image: WalV) -> bool {
    let meta = image.load_raft_meta()->Ok_0;
    let node = c.nodes[i];
    &&& 0 <= i < c.nodes.len()
    &&& node.id == id
    &&& wal::recovered_node(image) == Ok::<(MemLogV, KvMap, Index), DbErrorV>(
        (node.log, node.state, node.commit_index),
    )
    &&& node.current_term == c.current_term
    &&& node.voted_for == if meta.current_term == c.current_term {
        meta.voted_for
    } else {
        None
    }
    &&& node.role == if id == c.leader_id {
        Role::Leader
    } else {
        Role::Follower
    }
    &&& c.connected[i]
}

/// What is known of a member that has started.
proof fn started_members_hold_their_files(node: NodeV, id: NodeId, image: WalV, latest: Term)
    requires
        started_from(node, id, image, latest),
    ensures
        node.id == id,
        recovered(image) == (node.log, node.state, node.commit_index),
        end_of(recovered(image).0).1 == node.log.last_index(),
        latest_term(image) <= latest,
{
    reveal(started_from);
}

proof fn enrolled_members_hold_their_files(
    c: ClusterV,
    nodes: Seq<NodeV>,
    term: Term,
    leader: NodeId,
    i: int,
    image: WalV,
    latest: Term,
)
    requires
        c == raft_model::assembled(nodes, term, leader),
        0 <= i < nodes.len(),
        latest <= term,
        started_from(nodes[i], nodes[i].id, image, latest),
    ensures
        starts_from(c, i, nodes[i].id, image),
{
    reveal(started_from);
    assert(c.nodes[i] == raft_model::enrolled(nodes[i], term, leader));
}

/// The members that a cluster is built of, the place of its leader among them,
/// and the latest term.
proof fn clusters_are_built_of_members(ids: Seq<NodeId>, images: Seq<WalV>, c: ClusterV) -> (r: (
    Seq<NodeV>,
    int,
    Term,
))
    requires
        raft_model::built(ids, Some(images)) == Ok::<ClusterV, DbErrorV>(c),
    ensures
        ({
            let (members, best, latest) = r;
            let nodes = raft_model::by_id(members);
            let last = members[best].log.last_index();
            &&& members.len() == ids.len()
            &&& 0 <= best < ids.len()
            &&& raft_model::highest_rank(members, ids.len()) == best
            &&& latest >= 1
            &&& latest > 1 ==> exists|j: int|
                0 <= j < ids.len() && latest_term(#[trigger] images[j]) == latest
            &&& forall|j: int|
                0 <= j < ids.len() ==> started_from(
                    #[trigger] members[j],
                    ids[j],
                    images[j],
                    latest,
                )
            &&& forall|i: int, j: int|
                0 <= i < j < members.len() ==> (#[trigger] members[i]).id != (
                #[trigger] members[j]).id
            &&& c == raft_model::assembled(
                nodes,
                raft_model::resumed_term(nodes, latest, last),
                ids[best],
            )
        }),
{
    raft_build::no_duplicate_means_distinct(ids, 0);
    let n = ids.len();
    members_start_in_turn(ids, images, n);
    let (members, latest) = raft_model::restored_members(ids, Some(images), n)->Ok_0;
    raft_calls::the_highest_rank_leads(members, n);
    let best = raft_model::highest_rank(members, n);
    assert forall|i: int, j: int| 0 <= i < j < members.len() implies (#[trigger] members[i]).id != (
    #[trigger] members[j]).id by {
        started_members_hold_their_files(members[i], ids[i], images[i], latest);
        started_members_hold_their_files(members[j], ids[j], images[j], latest);
        assert(ids[i] != ids[j]);
    }
    members_have_places(members);
    started_members_hold_their_files(members[best], ids[best], images[best], latest);
    assert(raft_model::by_id(members)[raft_model::position(
        raft_model::by_id(members),
        members[best].id,
    )] == members[best]);
    (members, best, latest)
}

/// A cluster that is built from files. Every member holds what its files hold,
/// and all of them are in one term. A vote counts only where it was cast in that
/// very term. Everybody is connected, and the clock stands at zero.
pub proof fn members_hold_what_their_files_hold(
    ids: Seq<NodeId>,
    images: Seq<WalV>,
    c: ClusterV,
    j: int,
) -> (i: int)
    requires
        raft_model::built(ids, Some(images)) == Ok::<ClusterV, DbErrorV>(c),
        0 <= j < ids.len(),
    ensures
        starts_from(c, i, ids[j], images[j]),
        c.clock_ticks == 0,
        c.nodes.len() == ids.len(),
{
    let (members, best, latest) = clusters_are_built_of_members(ids, images, c);
    members_have_places(members);
    let nodes = raft_model::by_id(members);
    let last = members[best].log.last_index();
    started_members_hold_their_files(members[j], ids[j], images[j], latest);
    raft_model::terms_resume(nodes, latest, last);
    let i = raft_model::position(nodes, members[j].id);
    assert(nodes[i] == members[j]);
    enrolled_members_hold_their_files(
        c,
        nodes,
        raft_model::resumed_term(nodes, latest, last),
        ids[best],
        i,
        images[j],
        latest,
    );
    i
}

/// The leader of a cluster that is built from files is one that nobody has
/// committed more than, with the longest log of those that have committed as
/// much. The cluster is in the latest term that any file knows of, and in the
/// first at least; or in the next one, exactly where a log that ends in that term
/// is longer than the leader's.
pub proof fn clusters_start_from_their_files(
    ids: Seq<NodeId>,
    images: Seq<WalV>,
    c: ClusterV,
) -> (r: (int, Term))
    requires
        raft_model::built(ids, Some(images)) == Ok::<ClusterV, DbErrorV>(c),
    ensures
        ({
            let (best, latest) = r;
            let leader = recovered(images[best]);
            &&& 0 <= best < ids.len()
            &&& c.leader_id == ids[best]
            &&& forall|j: int|
                0 <= j < ids.len() ==> recovered(#[trigger] images[j]).2 < leader.2 || (recovered(
                    images[j],
                ).2 == leader.2 && end_of(recovered(images[j]).0).1 <= end_of(leader.0).1)
            &&& latest >= 1
            &&& forall|j: int| 0 <= j < ids.len() ==> latest_term(#[trigger] images[j]) <= latest
            &&& latest > 1 ==> exists|j: int|
                0 <= j < ids.len() && latest_term(#[trigger] images[j]) == latest
            &&& c.current_term == if latest < u64::MAX && exists|j: int|
                0 <= j < ids.len() && outgrows(#[trigger] images[j], latest, end_of(leader.0).1) {
                (latest + 1) as u64
            } else {
                latest
            }
        }),
{
    let (members, best, latest) = clusters_are_built_of_members(ids, images, c);
    let last = members[best].log.last_index();
    raft_calls::the_highest_rank_leads(members, ids.len());
    longer_logs_are_members(members, ids, images, latest, last);
    started_members_hold_their_files(members[best], ids[best], images[best], latest);
    assert forall|j: int| 0 <= j < ids.len() implies (recovered(#[trigger] images[j]).2 < recovered(
        images[best],
    ).2 || (recovered(images[j]).2 == recovered(images[best]).2 && end_of(
        recovered(images[j]).0,
    ).1 <= end_of(recovered(images[best]).0).1)) && latest_term(images[j]) <= latest by {
        started_members_hold_their_files(members[j], ids[j], images[j], latest);
    }
    (best, latest)
}

} // verus!
