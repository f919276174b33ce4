//! Putting a cluster together, fresh or from the files of its members.
use vstd::prelude::*;

use crate::raft_cluster;
use crate::raft_cluster::RaftCluster;
use crate::raft_laws;
use crate::raft_model;
use crate::raft_node::{NodeV, RaftNode, Role, DEFAULT_HEARTBEAT_INTERVAL_TICKS};
use crate::types::{DbError, DbErrorV, DbResult, Index, NodeId, Term};
use crate::wal;
use crate::wal::{recover_node_from_wal, Wal, WalV};

verus! {

/// The contents of the files of all members, where there are any.
pub open spec fn images(wals: Option<Vec<Wal>>) -> Option<Seq<WalV>> {
    match wals {
        Some(all) => Some(raft_cluster::wal_views(all@)),
        None => None,
    }
}

/// Every log that files give back has an index after its last.
pub open spec fn ends_below_limit(wal: WalV) -> bool {
    match wal::recovered_node(wal) {
        Ok((log, state, commit)) => log.last_index() < u64::MAX,
        Err(_) => true,
    }
}

/// A new member goes before the first greater id.
proof fn place_for_is_between(nodes: Seq<NodeV>, id: NodeId, k: int)
    requires
        raft_model::ids_ascend(nodes),
        0 <= k <= nodes.len(),
        forall|i: int| 0 <= i < k ==> (#[trigger] nodes[i]).id <= id,
    ensures
        ({
            let p = raft_model::place_for(nodes, id, k);
            &&& k <= p <= nodes.len()
            &&& forall|i: int| 0 <= i < p ==> (#[trigger] nodes[i]).id <= id
            &&& forall|i: int| p <= i < nodes.len() ==> (#[trigger] nodes[i]).id > id
        }),
    decreases nodes.len() - k,
{
    if k < nodes.len() {
        if nodes[k].id <= id {
            place_for_is_between(nodes, id, k + 1);
        } else {
            assert forall|i: int| k <= i < nodes.len() implies (#[trigger] nodes[i]).id > id by {
                if i > k {
                    assert(nodes[k].id < nodes[i].id);
                }
            }
        }
    }
}

/// Inserting a member with a new id keeps the ids in order and all members.
pub proof fn inserting_keeps_order(nodes: Seq<NodeV>, node: NodeV)
    requires
        raft_model::ids_ascend(nodes),
        !raft_model::has_member(nodes, node.id),
    ensures
        ({
            let p = raft_model::place_for(nodes, node.id, 0);
            let next = nodes.insert(p, node);
            &&& 0 <= p <= nodes.len()
            &&& raft_model::ids_ascend(next)
            &&& raft_model::has_member(next, node.id)
            &&& forall|id: NodeId|
                raft_model::has_member(nodes, id) ==> #[trigger] raft_model::has_member(next, id)
            &&& forall|id: NodeId| #[trigger]
                raft_model::has_member(next, id) ==> id == node.id || raft_model::has_member(
                    nodes,
                    id,
                )
        }),
{
    place_for_is_between(nodes, node.id, 0);
    let p = raft_model::place_for(nodes, node.id, 0);
    let next = nodes.insert(p, node);
    assert forall|i: int, j: int| 0 <= i < j < next.len() implies (#[trigger] next[i]).id < (
    #[trigger] next[j]).id by {
        let a = if i < p {
            i
        } else {
            i - 1
        };
        let b = if j < p {
            j
        } else {
            j - 1
        };
        if i != p && j != p {
            assert(nodes[a].id < nodes[b].id);
        } else if i == p {
            assert(nodes[b].id > node.id);
        } else {
            assert(nodes[a].id != node.id);
            assert(nodes[a].id <= node.id);
        }
    }
    assert(next[p].id == node.id);
    assert forall|id: NodeId| raft_model::has_member(
        nodes,
        id,
    ) implies #[trigger] raft_model::has_member(next, id) by {
        let i = choose|i: int| 0 <= i < nodes.len() && (#[trigger] nodes[i]).id == id;
        if i < p {
            assert(next[i].id == id);
        } else {
            assert(next[i + 1].id == id);
        }
    }
    assert forall|id: NodeId| #[trigger] raft_model::has_member(next, id) implies id == node.id
        || raft_model::has_member(nodes, id) by {
        let i = choose|i: int| 0 <= i < next.len() && (#[trigger] next[i]).id == id;
        if i < p {
            assert(nodes[i].id == id);
        } else if i > p {
            assert(nodes[i - 1].id == id);
        }
    }
}

/// Members with different ids stand in ascending order, all of them.
pub proof fn ordering_ascends(members: Seq<NodeV>)
    requires
        forall|i: int, j: int|
            0 <= i < j < members.len() ==> (#[trigger] members[i]).id != (
            #[trigger] members[j]).id,
    ensures
        raft_model::ids_ascend(raft_model::by_id(members)),
        forall|id: NodeId| #[trigger]
            raft_model::has_member(raft_model::by_id(members), id) <==> raft_model::has_member(
                members,
                id,
            ),
    decreases members.len(),
{
    if members.len() > 0 {
        let before = members.drop_last();
        let last = members.last();
        assert forall|i: int, j: int| 0 <= i < j < before.len() implies (
        #[trigger] before[i]).id != (#[trigger] before[j]).id by {
            assert(members[i].id != members[j].id);
        }
        ordering_ascends(before);
        assert(!raft_model::has_member(before, last.id)) by {
            if raft_model::has_member(before, last.id) {
                let i = choose|i: int|
                    0 <= i < before.len() && (#[trigger] before[i]).id == last.id;
                assert(members[i].id != members[members.len() - 1].id);
            }
        }
        inserting_keeps_order(raft_model::by_id(before), last);
        let all = raft_model::by_id(members);
        assert forall|id: NodeId| #[trigger]
            raft_model::has_member(all, id) <==> raft_model::has_member(members, id) by {
            if raft_model::has_member(members, id) {
                let i = choose|i: int| 0 <= i < members.len() && (#[trigger] members[i]).id == id;
                if i < before.len() {
                    assert(before[i].id == id);
                    assert(raft_model::has_member(before, id));
                }
            }
            if raft_model::has_member(all, id) {
                if id == last.id {
                    assert(members[members.len() - 1].id == id);
                } else {
                    let i = choose|i: int|
                        0 <= i < before.len() && (#[trigger] before[i]).id == id;
                    assert(members[i].id == id);
                }
            }
        }
    }
}

/// No id stands twice exactly when no later one repeats an earlier one.
pub proof fn no_duplicate_means_distinct(ids: Seq<NodeId>, k: int)
    requires
        0 <= k <= ids.len(),
    ensures
        raft_model::first_duplicate(ids, k) is None <==> forall|i: int, j: int|
            0 <= i < j < ids.len() && k <= j ==> #[trigger] ids[i] != #[trigger] ids[j],
    decreases ids.len() - k,
{
    if k < ids.len() {
        no_duplicate_means_distinct(ids, k + 1);
        if ids.take(k).contains(ids[k]) {
            let i = choose|i: int| 0 <= i < ids.take(k).len() && ids.take(k)[i] == ids[k];
            assert(ids[i] == ids[k]);
        } else if raft_model::first_duplicate(ids, k) is None {
            assert forall|i: int, j: int| 0 <= i < j < ids.len() && k <= j implies
                #[trigger] ids[i] != #[trigger] ids[j] by {
                if j == k {
                    assert(ids.take(k)[i] == ids[i]);
                }
            }
        }
    }
}

/// The first id that stands before already.
fn find_duplicate(ids: &Vec<NodeId>) -> (r: Option<NodeId>)
    ensures
        r == raft_model::first_duplicate(ids@, 0),
{
    let mut k: usize = 0;
    while k < ids.len()
        invariant
            k <= ids@.len(),
            raft_model::first_duplicate(ids@, 0) == raft_model::first_duplicate(ids@, k as int),
        decreases ids@.len() - k,
    {
        let mut j: usize = 0;
        while j < k
            invariant
                j <= k < ids@.len(),
                raft_model::first_duplicate(ids@, 0) == raft_model::first_duplicate(
                    ids@,
                    k as int,
                ),
                forall|i: int| 0 <= i < j ==> #[trigger] ids@[i] != ids@[k as int],
            decreases k - j,
        {
            if ids[j] == ids[k] {
                assert(ids@.take(k as int)[j as int] == ids@[k as int]);
                return Some(ids[k]);
            }
            j += 1;
        }
        assert(!ids@.take(k as int).contains(ids@[k as int]));
        k += 1;
    }
    None
}

/// A member that has just started, with room after its log.
#[verifier::opaque]
spec fn starting(node: NodeV) -> bool {
    &&& node.wf()
    &&& node.log.last_index() < u64::MAX
    &&& node.heartbeat_elapsed == 0
    &&& node.election_elapsed == 0
}

/// One member, fresh or from its files.
fn start_member(id: NodeId, term: Term, wals: &Option<Vec<Wal>>, k: usize) -> (r: DbResult<
    RaftNode,
>)
    requires
        wals matches Some(all) ==> k < all@.len() && ends_below_limit(all@[k as int]@),
    ensures
        match wals {
            None => r matches Ok(node) && node@ == NodeV::fresh(id, Role::Follower, term),
            Some(all) => match NodeV::restored(id, Role::Follower, term, all@[k as int]@) {
                Ok(node) => r matches Ok(found) && found@ == node,
                Err(error) => r matches Err(e) && e@ == error,
            },
        },
        r matches Ok(node) ==> node.wf() && starting(node@) && node@.id == id,
{
    proof {
        reveal(starting);
        reveal(NodeV::restored);
    }
    match wals {
        None => Ok(RaftNode::new(id, Role::Follower, term)),
        Some(all) => RaftNode::new_with_wal(id, Role::Follower, term, all[k].clone()),
    }
}

/// The place before the first member with a greater id.
fn place_before(nodes: &Vec<RaftNode>, id: NodeId) -> (r: usize)
    ensures
        r == raft_model::place_for(raft_cluster::node_views(nodes@), id, 0),
        r <= nodes@.len(),
{
    let ghost views = raft_cluster::node_views(nodes@);
    let mut k: usize = 0;
    while k < nodes.len() && nodes[k].id() <= id
        invariant
            k <= nodes@.len(),
            views == raft_cluster::node_views(nodes@),
            raft_model::place_for(views, id, 0) == raft_model::place_for(views, id, k as int),
        decreases nodes@.len() - k,
    {
        assert(views[k as int].id == nodes@[k as int]@.id);
        k += 1;
    }
    k
}

/// The sorted members are those with the first `k` ids.
#[verifier::opaque]
spec fn holds_first(ids: Seq<NodeId>, k: int, sorted: Seq<NodeV>) -> bool {
    &&& raft_model::ids_ascend(sorted)
    &&& forall|j: int| 0 <= j < k ==> raft_model::has_member(sorted, #[trigger] ids[j])
    &&& forall|id: NodeId| #[trigger]
        raft_model::has_member(sorted, id) ==> ids.take(k).contains(id)
}

/// One more member with the next id.
proof fn holds_one_more(ids: Seq<NodeId>, k: int, sorted: Seq<NodeV>, node: NodeV)
    requires
        0 <= k < ids.len(),
        raft_model::first_duplicate(ids, 0) is None,
        holds_first(ids, k, sorted),
        node.id == ids[k],
    ensures
        ({
            let p = raft_model::place_for(sorted, node.id, 0);
            0 <= p <= sorted.len() && holds_first(ids, k + 1, sorted.insert(p, node))
        }),
{
    reveal(holds_first);
    no_duplicate_means_distinct(ids, 0);
    if raft_model::has_member(sorted, node.id) {
        let i = choose|i: int| 0 <= i < ids.take(k).len() && ids.take(k)[i] == node.id;
        assert(ids[i] != ids[k]);
    }
    inserting_keeps_order(sorted, node);
    let next = sorted.insert(raft_model::place_for(sorted, node.id, 0), node);
    assert forall|j: int| 0 <= j < k + 1 implies raft_model::has_member(
        next,
        #[trigger] ids[j],
    ) by {
        if j < k {
            assert(raft_model::has_member(sorted, ids[j]));
        }
    }
    assert forall|x: NodeId| #[trigger] raft_model::has_member(next, x) implies ids.take(
        k + 1,
    ).contains(x) by {
        if x == node.id {
            assert(ids.take(k + 1)[k] == x);
        } else {
            let i = choose|i: int| 0 <= i < ids.take(k).len() && ids.take(k)[i] == x;
            assert(ids.take(k + 1)[i] == x);
        }
    }
}

/// The id, commit index and last index of the highest-ranking member.
#[verifier::opaque]
spec fn leads(
    ids: Seq<NodeId>,
    members: Seq<NodeV>,
    id: NodeId,
    commit: Index,
    last: Index,
) -> bool {
    let best = raft_model::highest_rank(members, members.len());
    &&& 0 <= best < members.len()
    &&& id == ids[best]
    &&& commit == members[best].commit_index
    &&& last == members[best].log.last_index()
}

/// The members in ascending order of their ids, the greatest term among them,
/// and the id of the one that ranks highest.
fn start_members(ids: &Vec<NodeId>, wals: &Option<Vec<Wal>>) -> (r: DbResult<
    (Vec<RaftNode>, Term, NodeId),
>)
    requires
        ids@.len() > 0,
        raft_model::first_duplicate(ids@, 0) is None,
        wals matches Some(all) ==> all@.len() == ids@.len() && forall|k: int|
            0 <= k < all@.len() ==> ends_below_limit((#[trigger] all@[k])@),
    ensures
        match raft_model::restored_members(ids@, images(*wals), ids@.len()) {
            Ok((members, term)) => {
                &&& r matches Ok(found)
                &&& raft_cluster::node_views(found.0@) == raft_model::by_id(members)
                &&& found.1 == term
                &&& found.2 == ids@[raft_model::highest_rank(members, ids@.len())]
                &&& raft_model::ids_ascend(raft_model::by_id(members))
                &&& raft_model::has_member(raft_model::by_id(members), found.2)
                &&& forall|i: int|
                    0 <= i < found.0@.len() ==> (#[trigger] found.0@[i]).wf() && starting(
                        found.0@[i]@,
                    )
            },
            Err(error) => r matches Err(e) && e@ == error,
        },
{
    let mut nodes: Vec<RaftNode> = Vec::new();
    let mut current_term: u64 = 1;
    let mut leader_id: u64 = ids[0];
    let mut best_commit: u64 = 0;
    let mut best_last: u64 = 0;
    let ghost mut members: Seq<NodeV> = Seq::empty();
    let mut k: usize = 0;
    proof {
        assert(raft_cluster::node_views(nodes@) =~= raft_model::by_id(members));
        assert(holds_first(ids@, 0, raft_model::by_id(members))) by {
            reveal(holds_first);
        }
    }
    while k < ids.len()
        invariant
            ids@.len() > 0,
            k <= ids@.len(),
            members.len() == k,
            raft_model::first_duplicate(ids@, 0) is None,
            wals matches Some(all) ==> all@.len() == ids@.len() && forall|j: int|
                0 <= j < all@.len() ==> ends_below_limit((#[trigger] all@[j])@),
            raft_model::restored_members(ids@, images(*wals), k as nat) == Ok::<
                (Seq<NodeV>, Term),
                DbErrorV,
            >((members, current_term)),
            raft_cluster::node_views(nodes@) == raft_model::by_id(members),
            holds_first(ids@, k as int, raft_model::by_id(members)),
            k > 0 ==> leads(ids@, members, leader_id, best_commit, best_last),
            forall|i: int|
                0 <= i < nodes@.len() ==> (#[trigger] nodes@[i]).wf() && starting(nodes@[i]@),
        decreases ids@.len() - k,
    {
        let id: u64 = ids[k];
        proof {
            if let Some(all) = wals {
                assert(ends_below_limit(all@[k as int]@));
                assert(images(*wals)->0[k as int] == all@[k as int]@);
            }
        }
        let node = match start_member(id, current_term, wals, k) {
            Ok(node) => node,
            Err(error) => {
                proof {
                    failed_member_fails_all(ids@, images(*wals), (k + 1) as nat, ids@.len());
                }
                return Err(error);
            },
        };
        if node.current_term() > current_term {
            current_term = node.current_term();
        }
        let commit: u64 = node.commit_index();
        let last: u64 = node.last_index();
        let ghost view = node@;
        let ghost seen = members;
        let p: usize = place_before(&nodes, id);
        nodes = insert_member(nodes, p, node);
        proof {
            holds_one_more(ids@, k as int, raft_model::by_id(seen), view);
            members = members.push(view);
            assert(members.drop_last() =~= seen);
        }
        if k == 0 || commit > best_commit || (commit == best_commit && last > best_last) {
            leader_id = id;
            best_commit = commit;
            best_last = last;
        }
        proof {
            reveal(leads);
            ranks_of_prefix(seen, view, k as nat);
        }
        k += 1;
    }
    proof {
        reveal(leads);
        reveal(holds_first);
        assert(raft_model::has_member(
            raft_model::by_id(members),
            ids@[raft_model::highest_rank(members, ids@.len())],
        ));
    }
    Ok((nodes, current_term, leader_id))
}

/// Puts one more member in its place.
fn insert_member(nodes: Vec<RaftNode>, p: usize, node: RaftNode) -> (r: Vec<RaftNode>)
    requires
        p <= nodes@.len(),
        node.wf() && starting(node@),
        forall|i: int|
            0 <= i < nodes@.len() ==> (#[trigger] nodes@[i]).wf() && starting(nodes@[i]@),
    ensures
        raft_cluster::node_views(r@) == raft_cluster::node_views(nodes@).insert(p as int, node@),
        forall|i: int| 0 <= i < r@.len() ==> (#[trigger] r@[i]).wf() && starting(r@[i]@),
{
    let mut nodes = nodes;
    let ghost before = nodes@;
    let ghost view = node@;
    nodes.insert(p, node);
    proof {
        assert(raft_cluster::node_views(nodes@) =~= raft_cluster::node_views(before).insert(
            p as int,
            view,
        ));
        assert forall|i: int| 0 <= i < nodes@.len() implies (#[trigger] nodes@[i]).wf() && starting(
            nodes@[i]@,
        ) by {
            if i < p {
                assert(nodes@[i] == before[i]);
            } else if i > p {
                assert(nodes@[i] == before[i - 1]);
            }
        }
    }
    nodes
}

/// The highest rank among the first members does not depend on later ones.
proof fn ranks_of_prefix(members: Seq<NodeV>, next: NodeV, k: nat)
    requires
        k <= members.len(),
    ensures
        raft_model::highest_rank(members.push(next), k) == raft_model::highest_rank(members, k),
        0 <= raft_model::highest_rank(members, k),
        k > 0 ==> raft_model::highest_rank(members, k) < k,
    decreases k,
{
    if k > 1 {
        ranks_of_prefix(members, next, (k - 1) as nat);
    }
}

/// A member that cannot start stops all after it.
proof fn failed_member_fails_all(ids: Seq<NodeId>, wals: Option<Seq<WalV>>, k: nat, n: nat)
    requires
        k <= n,
        raft_model::restored_members(ids, wals, k) is Err,
    ensures
        raft_model::restored_members(ids, wals, n) == raft_model::restored_members(ids, wals, k),
    decreases n,
{
    if k < n {
        failed_member_fails_all(ids, wals, k, (n - 1) as nat);
    }
}

/// The term in which members resume under the given leader.
fn term_to_resume(nodes: &Vec<RaftNode>, term: Term, leader_id: NodeId) -> (r: Term)
    requires
        raft_model::ids_ascend(raft_cluster::node_views(nodes@)),
        raft_model::has_member(raft_cluster::node_views(nodes@), leader_id),
    ensures
        ({
            let views = raft_cluster::node_views(nodes@);
            r == raft_model::resumed_term(
                views,
                term,
                views[raft_model::position(views, leader_id)].log.last_index(),
            )
        }),
{
    let ghost views = raft_cluster::node_views(nodes@);
    let ghost at = raft_model::position(views, leader_id);
    let mut leader_last_index: u64 = 0;
    let mut i: usize = 0;
    while i < nodes.len()
        invariant
            i <= nodes@.len(),
            views == raft_cluster::node_views(nodes@),
            raft_model::ids_ascend(views),
            at == raft_model::position(views, leader_id),
            0 <= at < views.len(),
            views[at].id == leader_id,
            at < i ==> leader_last_index == views[at].log.last_index(),
        decreases nodes@.len() - i,
    {
        assert(views[i as int] == nodes@[i as int]@);
        if nodes[i].id() == leader_id {
            leader_last_index = nodes[i].last_index();
            proof {
                raft_laws::position_is(views, leader_id, i as int);
            }
        }
        i += 1;
    }
    let mut k: usize = 0;
    while k < nodes.len()
        invariant
            k <= nodes@.len(),
            views == raft_cluster::node_views(nodes@),
            leader_last_index == views[at].log.last_index(),
            at == raft_model::position(views, leader_id),
            forall|j: int|
                0 <= j < k ==> !raft_model::goes_beyond(
                    #[trigger] views[j],
                    term,
                    leader_last_index,
                ),
        decreases nodes@.len() - k,
    {
        assert(views[k as int] == nodes@[k as int]@);
        if nodes[k].last_term() == term && nodes[k].last_index() > leader_last_index {
            proof {
                reveal(raft_model::resumed_term);
                assert(raft_model::goes_beyond(views[k as int], term, leader_last_index));
            }
            return if term < u64::MAX {
                term + 1
            } else {
                term
            };
        }
        k += 1;
    }
    proof {
        reveal(raft_model::resumed_term);
    }
    term
}

/// Takes members into a cluster under the given leader.
fn assemble(nodes: Vec<RaftNode>, term: Term, leader_id: NodeId) -> (r: RaftCluster)
    requires
        raft_model::ids_ascend(raft_cluster::node_views(nodes@)),
        raft_model::has_member(raft_cluster::node_views(nodes@), leader_id),
        forall|i: int|
            0 <= i < nodes@.len() ==> (#[trigger] nodes@[i]).wf() && starting(nodes@[i]@),
    ensures
        r.wf(),
        r@ == raft_model::assembled(raft_cluster::node_views(nodes@), term, leader_id),
{
    let mut nodes = nodes;
    let ghost views = raft_cluster::node_views(nodes@);
    let ghost at = raft_model::position(views, leader_id);
    proof {
        reveal(starting);
    }
    let end: usize = nodes.len();
    let mut leader_last_index: u64 = 0;
    let mut i: usize = 0;
    while i < end
        invariant
            i <= end,
            end == nodes@.len(),
            end == views.len(),
            raft_model::ids_ascend(views),
            at == raft_model::position(views, leader_id),
            0 <= at < end,
            views[at].id == leader_id,
            leader_last_index < u64::MAX,
            forall|k: int| 0 <= k < end ==> starting(#[trigger] views[k]),
            forall|k: int| 0 <= k < end ==> (#[trigger] nodes@[k]).wf(),
            forall|k: int|
                0 <= k < end ==> #[trigger] nodes@[k]@ == if k >= i {
                    views[k]
                } else {
                    raft_model::enrolled(views[k], term, leader_id)
                },
            at < i ==> leader_last_index == views[at].log.last_index(),
        decreases end - i,
    {
        proof {
            reveal(starting);
        }
        assert(nodes@[i as int]@ == views[i as int]);
        assert(starting(views[i as int]));
        if nodes[i].current_term < term {
            nodes[i].current_term = term;
            nodes[i].voted_for = None;
            nodes[i].persist_term_vote_metadata();
        }
        nodes[i].clear_election_backoff();
        if nodes[i].id == leader_id {
            nodes[i].role = Role::Leader;
            leader_last_index = nodes[i].last_index();
            proof {
                raft_laws::position_is(views, leader_id, i as int);
            }
        } else {
            nodes[i].role = Role::Follower;
        }
        i += 1;
    }
    let mut next_index: Vec<Index> = Vec::new();
    let mut match_index: Vec<Index> = Vec::new();
    let mut connected_to_leader: Vec<bool> = Vec::new();
    let mut k: usize = 0;
    while k < end
        invariant
            k <= end,
            end == nodes@.len(),
            end == views.len(),
            leader_last_index < u64::MAX,
            next_index@.len() == k,
            match_index@.len() == k,
            connected_to_leader@.len() == k,
            forall|j: int| 0 <= j < end ==> (#[trigger] nodes@[j])@.id == views[j].id,
            forall|j: int| 0 <= j < k ==> #[trigger] next_index@[j] == leader_last_index + 1,
            forall|j: int|
                0 <= j < k ==> #[trigger] match_index@[j] == if views[j].id == leader_id {
                    leader_last_index
                } else {
                    0
                },
            forall|j: int| 0 <= j < k ==> #[trigger] connected_to_leader@[j],
        decreases end - k,
    {
        assert(nodes@[k as int]@.id == views[k as int].id);
        next_index.push(leader_last_index + 1);
        if nodes[k].id() == leader_id {
            match_index.push(leader_last_index);
        } else {
            match_index.push(0);
        }
        connected_to_leader.push(true);
        k += 1;
    }
    let cluster = RaftCluster {
        nodes,
        leader_id,
        current_term: term,
        next_index,
        match_index,
        connected_to_leader,
        heartbeat_interval_ticks: DEFAULT_HEARTBEAT_INTERVAL_TICKS,
        clock_ticks: 0,
    };
    proof {
        let built = raft_model::assembled(views, term, leader_id);
        assert(cluster@.nodes =~= built.nodes);
        assert(cluster@ =~= built);
        assert forall|j: int| 0 <= j < built.nodes.len() implies #[trigger] built.member_ok(j) by {
            assert(starting(views[j]));
            assert(cluster.nodes@[j]@ == built.nodes[j]);
        }
        assert(raft_model::ids_ascend(built.nodes)) by {
            assert forall|a: int, b: int| 0 <= a < b < built.nodes.len() implies (
            #[trigger] built.nodes[a]).id < (#[trigger] built.nodes[b]).id by {
                assert(views[a].id < views[b].id);
            }
        }
        assert(built.nodes[at].id == leader_id);
    }
    cluster
}

impl RaftCluster {
    /// A cluster whose members keep nothing on disk.
    pub fn new(node_ids: Vec<NodeId>) -> (r: DbResult<Self>)
        ensures
            match raft_model::built(node_ids@, None) {
                Ok(cluster) => r matches Ok(found) && found.wf() && found@ == cluster,
                Err(error) => r matches Err(e) && e@ == error,
            },
    {
        Self::build(node_ids, None)
    }

    /// A cluster whose members are restored from their files, given in the
    /// order of the ids. It resumes in the greatest term that a member was in,
    /// or in the next one where a member has entries of that term beyond the
    /// leader's log.
    pub fn new_durable(node_ids: Vec<NodeId>, wals: Vec<Wal>) -> (r: DbResult<Self>)
        requires
            wals@.len() == node_ids@.len(),
            forall|k: int| 0 <= k < wals@.len() ==> ends_below_limit((#[trigger] wals@[k])@),
        ensures
            match raft_model::built(node_ids@, Some(raft_cluster::wal_views(wals@))) {
                Ok(cluster) => r matches Ok(found) && found.wf() && found@ == cluster,
                Err(error) => r matches Err(e) && e@ == error,
            },
    {
        Self::build(node_ids, Some(wals))
    }

    /// A cluster whose members are restored from their files, where there are
    /// files for each and no log ends at the last index of all.
    pub fn try_new_durable(node_ids: Vec<NodeId>, wals: Vec<Wal>) -> (r: Option<DbResult<Self>>)
        ensures
            r is Some <==> wals@.len() == node_ids@.len() && forall|k: int|
                0 <= k < wals@.len() ==> ends_below_limit((#[trigger] wals@[k])@),
            r matches Some(built) ==> match raft_model::built(
                node_ids@,
                Some(raft_cluster::wal_views(wals@)),
            ) {
                Ok(cluster) => built matches Ok(found) && found.wf() && found@ == cluster,
                Err(error) => built matches Err(e) && e@ == error,
            },
    {
        if wals.len() != node_ids.len() {
            return None;
        }
        let mut k: usize = 0;
        while k < wals.len()
            invariant
                k <= wals@.len(),
                forall|j: int| 0 <= j < k ==> ends_below_limit((#[trigger] wals@[j])@),
            decreases wals@.len() - k,
        {
            if let Ok((log, _, _)) = recover_node_from_wal(&wals[k]) {
                if log.last_index() == u64::MAX {
                    assert(!ends_below_limit(wals@[k as int]@));
                    return None;
                }
            }
            k += 1;
        }
        Some(Self::new_durable(node_ids, wals))
    }

    fn build(node_ids: Vec<NodeId>, wals: Option<Vec<Wal>>) -> (r: DbResult<Self>)
        requires
            wals matches Some(all) ==> all@.len() == node_ids@.len() && forall|k: int|
                0 <= k < all@.len() ==> ends_below_limit((#[trigger] all@[k])@),
        ensures
            match raft_model::built(node_ids@, images(wals)) {
                Ok(cluster) => r matches Ok(found) && found.wf() && found@ == cluster,
                Err(error) => r matches Err(e) && e@ == error,
            },
    {
        if node_ids.len() < 3 {
            return Err(DbError::ClusterTooSmall);
        }
        if let Some(id) = find_duplicate(&node_ids) {
            return Err(DbError::DuplicateNode(id));
        }
        match start_members(&node_ids, &wals) {
            Ok((nodes, term, leader_id)) => {
                let resumed: u64 = term_to_resume(&nodes, term, leader_id);
                Ok(assemble(nodes, resumed, leader_id))
            },
            Err(error) => Err(error),
        }
    }
}

} // verus!
