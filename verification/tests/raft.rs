use anvildb::raft_cluster::RaftCluster;
use anvildb::raft_node::{
    RaftNode, Role, DEFAULT_ELECTION_TIMEOUT_BASE_TICKS, DEFAULT_ELECTION_TIMEOUT_SPREAD_TICKS,
    MAX_ELECTION_BACKOFF_EXPONENT,
};
use anvildb::types::{Command, DbError, LogEntry, NodeId};
use anvildb::wal::Wal;

fn member(cluster: &mut RaftCluster, id: NodeId) -> &mut RaftNode {
    cluster
        .nodes
        .iter_mut()
        .find(|node| node.id() == id)
        .expect("node should exist")
}

fn blank_durable(node_ids: Vec<NodeId>) -> RaftCluster {
    let files = node_ids
        .iter()
        .map(|id| Wal::open(format!("node-{id}.wal")).expect("wal should open"))
        .collect();
    RaftCluster::new_durable(node_ids, files).expect("cluster should build")
}

fn files_of(cluster: &RaftCluster) -> Vec<Wal> {
    cluster
        .nodes
        .iter()
        .map(|node| node.wal.clone().expect("node should keep files"))
        .collect()
}

#[test]
fn rejects_clusters_smaller_than_three_nodes() {
    let result = RaftCluster::new(vec![1, 2]);
    assert!(matches!(result, Err(DbError::ClusterTooSmall)));
}

#[test]
fn elects_first_node_as_leader_in_phase_one() {
    let cluster = RaftCluster::new(vec![3, 4, 5]).expect("cluster should build");

    let leader = cluster
        .node(cluster.leader_id())
        .expect("leader node must exist");
    assert_eq!(leader.role(), Role::Leader);
}

#[test]
fn candidate_with_majority_becomes_leader() {
    let mut cluster = RaftCluster::new(vec![1, 2, 3]).expect("cluster should build");

    let outcome = cluster.start_election(2).expect("election should execute");
    assert!(outcome.elected);
    assert_eq!(outcome.leader_id, 2);
    assert_eq!(cluster.leader_id(), 2);
    assert_eq!(cluster.current_term(), 2);

    let leader = cluster.node(2).expect("node 2 should exist");
    assert_eq!(leader.role(), Role::Leader);
    assert_eq!(leader.current_term(), 2);

    cluster
        .propose(Command::Put {
            key: "leader".to_owned(),
            value: "node-2".to_owned(),
        })
        .expect("new leader should accept proposals");

    for node_id in cluster.node_ids() {
        let node = cluster.node(node_id).expect("node should exist");
        assert_eq!(node.get("leader"), Some("node-2"));
    }
}

#[test]
fn split_vote_leaves_existing_leader_in_place() {
    let mut cluster = RaftCluster::new(vec![1, 2, 3, 4, 5]).expect("cluster should build");

    {
        let node_1 = member(&mut cluster, 1);
        node_1.current_term = 2;
        node_1.voted_for = Some(1);

        let node_3 = member(&mut cluster, 3);
        node_3.current_term = 2;
        node_3.voted_for = Some(3);

        let node_4 = member(&mut cluster, 4);
        node_4.current_term = 2;
        node_4.voted_for = Some(4);

        let node_5 = member(&mut cluster, 5);
        node_5.current_term = 2;
        node_5.voted_for = Some(5);
    }

    let outcome = cluster.start_election(2).expect("election should execute");

    assert!(!outcome.elected);
    assert_eq!(outcome.votes_received, 1);
    assert_eq!(cluster.leader_id(), 1);
    assert_eq!(
        cluster.node(2).expect("node 2 should exist").role(),
        Role::Candidate
    );
    assert_eq!(
        cluster.node(1).expect("node 1 should exist").role(),
        Role::Leader
    );
}

#[test]
fn stale_term_rejection_forces_candidate_to_step_down() {
    let mut cluster = RaftCluster::new(vec![1, 2, 3]).expect("cluster should build");

    {
        let node_3 = member(&mut cluster, 3);
        node_3.current_term = 5;
        node_3.voted_for = Some(3);
    }

    let outcome = cluster.start_election(2).expect("election should execute");

    assert!(!outcome.elected);
    assert_eq!(outcome.term, 5);

    let candidate = cluster.node(2).expect("node 2 should exist");
    assert_eq!(candidate.role(), Role::Follower);
    assert_eq!(candidate.current_term(), 5);
}

#[test]
fn heartbeats_prevent_unnecessary_elections() {
    let mut cluster = RaftCluster::new(vec![1, 2, 3]).expect("cluster should build");

    cluster.tick_many(50).expect("ticks should execute");

    assert_eq!(cluster.leader_id(), 1);
    assert_eq!(cluster.current_term(), 1);
    assert_eq!(
        cluster.node(1).expect("node 1 should exist").role(),
        Role::Leader
    );
    assert_eq!(
        cluster.node(2).expect("node 2 should exist").role(),
        Role::Follower
    );
    assert_eq!(
        cluster.node(3).expect("node 3 should exist").role(),
        Role::Follower
    );
    assert_eq!(cluster.clock_ticks(), 50);
}

#[test]
fn follower_times_out_and_becomes_leader_when_leader_isolated() {
    let mut cluster = RaftCluster::new(vec![1, 2, 3]).expect("cluster should build");

    cluster
        .disconnect(1)
        .expect("leader disconnect should succeed");
    cluster.tick_many(20).expect("ticks should execute");

    assert_ne!(cluster.leader_id(), 1);
    let new_leader_id = cluster.leader_id();
    assert_eq!(
        cluster
            .node(new_leader_id)
            .expect("new leader should exist")
            .role(),
        Role::Leader
    );
    assert!(cluster.current_term() > 1);

    let outcome = cluster
        .propose(Command::Put {
            key: "failover".to_owned(),
            value: "ok".to_owned(),
        })
        .expect("new leader should be able to commit with quorum");

    assert_eq!(outcome.committed_nodes, 2);
    assert_eq!(
        cluster
            .node(new_leader_id)
            .expect("new leader should exist")
            .get("failover"),
        Some("ok")
    );
}

#[test]
fn heartbeat_round_reports_acknowledged_nodes() {
    let mut cluster = RaftCluster::new(vec![1, 2, 3, 4, 5]).expect("cluster should build");

    let initial = cluster.heartbeat_round().expect("heartbeat should succeed");
    assert_eq!(initial.leader_id, 1);
    assert_eq!(initial.quorum, 3);
    assert_eq!(initial.acknowledged_nodes, 5);

    cluster.disconnect(4).expect("node 4 should disconnect");
    cluster.disconnect(5).expect("node 5 should disconnect");

    let degraded = cluster.heartbeat_round().expect("heartbeat should succeed");
    assert_eq!(degraded.quorum, 3);
    assert_eq!(degraded.acknowledged_nodes, 3);

    cluster.disconnect(3).expect("node 3 should disconnect");

    let below_quorum = cluster.heartbeat_round().expect("heartbeat should succeed");
    assert_eq!(below_quorum.quorum, 3);
    assert_eq!(below_quorum.acknowledged_nodes, 2);
}

#[test]
fn durable_cluster_recovers_committed_state_after_restart() {
    let files = {
        let mut cluster = blank_durable(vec![1, 2, 3]);

        cluster
            .propose(Command::Put {
                key: "a".to_owned(),
                value: "1".to_owned(),
            })
            .expect("first proposal should commit");
        cluster
            .propose(Command::Put {
                key: "b".to_owned(),
                value: "2".to_owned(),
            })
            .expect("second proposal should commit");
        cluster
            .propose(Command::Delete {
                key: "a".to_owned(),
            })
            .expect("delete proposal should commit");

        for node_id in cluster.node_ids() {
            let node = cluster.node(node_id).expect("node should exist");
            assert_eq!(node.commit_index(), 3);
        }
        files_of(&cluster)
    };

    let mut recovered =
        RaftCluster::new_durable(vec![1, 2, 3], files).expect("recovery should succeed");

    for node_id in recovered.node_ids() {
        let node = recovered.node(node_id).expect("node should exist");
        assert_eq!(node.log_len(), 3);
        assert_eq!(node.commit_index(), 3);
        assert_eq!(node.get("a"), None);
        assert_eq!(node.get("b"), Some("2"));
    }

    recovered
        .propose(Command::Put {
            key: "after-restart".to_owned(),
            value: "ok".to_owned(),
        })
        .expect("recovered cluster should keep committing entries");
}

#[test]
fn durable_restart_keeps_uncommitted_entries_unapplied() {
    let files = {
        let mut cluster = blank_durable(vec![1, 2, 3, 4, 5]);

        cluster.disconnect(2).expect("node 2 should disconnect");
        cluster.disconnect(3).expect("node 3 should disconnect");
        cluster.disconnect(4).expect("node 4 should disconnect");

        let outcome = cluster
            .propose(Command::Put {
                key: "x".to_owned(),
                value: "uncommitted".to_owned(),
            })
            .expect("proposal should append without quorum");
        assert_eq!(outcome.committed_nodes, 0);
        assert_eq!(cluster.node(1).expect("leader exists").commit_index(), 0);
        assert_eq!(cluster.node(1).expect("leader exists").get("x"), None);
        files_of(&cluster)
    };

    let recovered = RaftCluster::new_durable(vec![1, 2, 3, 4, 5], files)
        .expect("recovery should succeed");

    let leader = recovered.node(1).expect("leader should exist");
    assert_eq!(leader.log_len(), 1);
    assert_eq!(leader.commit_index(), 0);
    assert_eq!(leader.get("x"), None);

    let follower_five = recovered.node(5).expect("follower should exist");
    assert_eq!(follower_five.log_len(), 1);
    assert_eq!(follower_five.commit_index(), 0);
    assert_eq!(follower_five.get("x"), None);
}

#[test]
fn durable_restart_preserves_term_vote_metadata_for_election_safety() {
    let files = {
        let mut cluster = blank_durable(vec![1, 2, 3, 4]);

        cluster.disconnect(1).expect("node 1 should disconnect");
        cluster.disconnect(4).expect("node 4 should disconnect");

        let outcome = cluster.start_election(2).expect("election should execute");
        assert!(!outcome.elected);
        assert_eq!(outcome.term, 2);
        assert_eq!(outcome.votes_received, 2);
        files_of(&cluster)
    };

    let mut recovered =
        RaftCluster::new_durable(vec![1, 2, 3, 4], files).expect("recovery should succeed");

    assert_eq!(recovered.current_term(), 2);
    for node_id in recovered.node_ids() {
        let node = recovered.node(node_id).expect("node should exist");
        assert_eq!(node.current_term(), 2);
    }

    {
        let node_four = member(&mut recovered, 4);
        node_four.current_term = 1;
    }

    let same_term_outcome = recovered
        .start_election(4)
        .expect("election should execute");
    assert!(!same_term_outcome.elected);
    assert_eq!(same_term_outcome.term, 2);
    assert_eq!(same_term_outcome.votes_received, 2);
    assert_eq!(recovered.leader_id(), 1);
}

#[test]
fn durable_snapshot_compaction_survives_restart() {
    let files = {
        let mut cluster = blank_durable(vec![1, 2, 3]);

        for index in 1..=6 {
            cluster
                .propose(Command::Put {
                    key: format!("k{index}"),
                    value: format!("v{index}"),
                })
                .expect("proposal should commit");
        }

        let snapshot_index = cluster
            .create_leader_snapshot()
            .expect("snapshot creation should succeed")
            .expect("snapshot should be created");
        assert_eq!(snapshot_index, 6);

        let leader = cluster.node(1).expect("leader should exist");
        assert_eq!(leader.log_base_index(), 6);
        assert_eq!(leader.log_len(), 0);

        cluster
            .propose(Command::Put {
                key: "after".to_owned(),
                value: "snapshot".to_owned(),
            })
            .expect("proposal after snapshot should commit");
        files_of(&cluster)
    };

    let recovered =
        RaftCluster::new_durable(vec![1, 2, 3], files).expect("recovery should succeed");

    let recovered_leader = recovered.node(1).expect("leader should exist");
    assert_eq!(recovered_leader.log_base_index(), 6);
    assert_eq!(recovered_leader.log_len(), 1);
    assert_eq!(recovered_leader.commit_index(), 7);
    assert_eq!(recovered_leader.get("k1"), Some("v1"));
    assert_eq!(recovered_leader.get("k6"), Some("v6"));
    assert_eq!(recovered_leader.get("after"), Some("snapshot"));
}

#[test]
fn reconnecting_lagging_follower_installs_snapshot_after_compaction() {
    let mut cluster = RaftCluster::new(vec![1, 2, 3]).expect("cluster should build");

    cluster.disconnect(3).expect("node 3 should disconnect");

    for index in 1..=5 {
        cluster
            .propose(Command::Put {
                key: format!("k{index}"),
                value: format!("v{index}"),
            })
            .expect("proposal should commit");
    }

    let snapshot_index = cluster
        .create_leader_snapshot()
        .expect("snapshot creation should succeed")
        .expect("snapshot should be created");
    assert_eq!(snapshot_index, 5);

    cluster
        .propose(Command::Put {
            key: "k6".to_owned(),
            value: "v6".to_owned(),
        })
        .expect("post-snapshot proposal should commit");

    cluster.reconnect(3).expect("node 3 should reconnect");

    let follower = cluster.node(3).expect("node 3 should exist");
    assert_eq!(follower.log_base_index(), 5);
    assert_eq!(follower.commit_index(), 6);
    assert_eq!(follower.get("k1"), Some("v1"));
    assert_eq!(follower.get("k5"), Some("v5"));
    assert_eq!(follower.get("k6"), Some("v6"));
}

#[test]
fn repeated_failed_elections_increase_backoff_and_success_resets_it() {
    let mut cluster = RaftCluster::new(vec![1, 2, 3, 4, 5]).expect("cluster should build");

    cluster.disconnect(3).expect("node 3 should disconnect");
    cluster.disconnect(4).expect("node 4 should disconnect");
    cluster.disconnect(5).expect("node 5 should disconnect");

    let initial_timeout = member(&mut cluster, 2).election_timeout_ticks;

    let first = cluster.start_election(2).expect("election should execute");
    assert!(!first.elected);

    let timeout_after_first = member(&mut cluster, 2).election_timeout_ticks;
    assert!(timeout_after_first > initial_timeout);

    let second = cluster.start_election(2).expect("election should execute");
    assert!(!second.elected);

    let timeout_after_second = member(&mut cluster, 2).election_timeout_ticks;
    assert!(timeout_after_second >= timeout_after_first);

    for _ in 0..10 {
        let _ = cluster.start_election(2).expect("election should execute");
    }

    let candidate = member(&mut cluster, 2);
    assert_eq!(
        candidate.election_backoff_rounds,
        MAX_ELECTION_BACKOFF_EXPONENT
    );
    let max_base =
        DEFAULT_ELECTION_TIMEOUT_BASE_TICKS * (1_u64 << MAX_ELECTION_BACKOFF_EXPONENT);
    assert!(candidate.election_timeout_ticks >= max_base);
    assert!(
        candidate.election_timeout_ticks
            < max_base + DEFAULT_ELECTION_TIMEOUT_SPREAD_TICKS.max(1)
    );

    cluster.reconnect(3).expect("node 3 should reconnect");
    cluster.reconnect(4).expect("node 4 should reconnect");
    let success = cluster.start_election(2).expect("election should execute");
    assert!(success.elected);
    assert_eq!(
        member(&mut cluster, 2).election_backoff_rounds,
        0
    );
}

#[test]
fn minority_timeout_storm_does_not_unseat_stable_leader() {
    let mut cluster = RaftCluster::new(vec![1, 2, 3, 4, 5]).expect("cluster should build");

    cluster.disconnect(3).expect("node 3 should disconnect");
    cluster.disconnect(4).expect("node 4 should disconnect");
    cluster.disconnect(5).expect("node 5 should disconnect");

    cluster.tick_many(40).expect("ticks should execute");

    assert_eq!(cluster.leader_id(), 1);
    assert_eq!(
        cluster.node(1).expect("leader should exist").role(),
        Role::Leader
    );
    assert_eq!(
        cluster.node(1).expect("leader should exist").current_term(),
        1
    );

    let outcome = cluster
        .propose(Command::Put {
            key: "majority".to_owned(),
            value: "ok".to_owned(),
        })
        .expect("majority side should still commit");

    assert_eq!(outcome.committed_nodes, 0);
    assert_eq!(
        cluster
            .node(1)
            .expect("node 1 should exist")
            .get("majority"),
        None
    );
    assert_eq!(
        cluster
            .node(2)
            .expect("node 2 should exist")
            .get("majority"),
        None
    );
    assert_eq!(
        cluster
            .node(3)
            .expect("node 3 should exist")
            .get("majority"),
        None
    );
    assert_eq!(
        cluster
            .node(4)
            .expect("node 4 should exist")
            .get("majority"),
        None
    );
    assert_eq!(
        cluster
            .node(5)
            .expect("node 5 should exist")
            .get("majority"),
        None
    );
}

#[test]
fn majority_partition_timeout_elects_new_leader_and_reconciles_old_leader() {
    let mut cluster = RaftCluster::new(vec![1, 2, 3, 4, 5]).expect("cluster should build");

    cluster.disconnect(1).expect("node 1 should disconnect");
    cluster.disconnect(5).expect("node 5 should disconnect");

    cluster.tick_many(10).expect("ticks should execute");

    let new_leader_id = cluster.leader_id();
    assert_ne!(new_leader_id, 1);
    assert!([2, 3, 4].contains(&new_leader_id));
    assert_eq!(
        cluster
            .node(new_leader_id)
            .expect("new leader should exist")
            .role(),
        Role::Leader
    );

    let outcome = cluster
        .propose(Command::Put {
            key: "partition".to_owned(),
            value: "majority".to_owned(),
        })
        .expect("majority partition should commit");
    assert_eq!(outcome.committed_nodes, 3);
    assert_eq!(
        cluster
            .node(1)
            .expect("node 1 should exist")
            .get("partition"),
        None
    );

    cluster.reconnect(1).expect("node 1 should reconnect");

    let recovered_old_leader = cluster.node(1).expect("node 1 should exist");
    assert_eq!(recovered_old_leader.get("partition"), Some("majority"));
    assert_eq!(recovered_old_leader.commit_index(), 1);
}

#[test]
fn replicates_put_to_all_nodes() {
    let mut cluster = RaftCluster::new(vec![1, 2, 3]).expect("cluster should build");

    let outcome = cluster
        .propose(Command::Put {
            key: "x".to_owned(),
            value: "1".to_owned(),
        })
        .expect("proposal should commit");

    assert_eq!(outcome.committed_nodes, 3);

    for node_id in cluster.node_ids() {
        let node = cluster.node(node_id).expect("node should exist");
        assert_eq!(node.get("x"), Some("1"));
        assert_eq!(node.log_len(), 1);
        assert_eq!(node.commit_index(), 1);
    }
}

#[test]
fn replicates_delete_to_all_nodes() {
    let mut cluster = RaftCluster::new(vec![7, 8, 9]).expect("cluster should build");

    cluster
        .propose(Command::Put {
            key: "doomed".to_owned(),
            value: "value".to_owned(),
        })
        .expect("put should commit");

    cluster
        .propose(Command::Delete {
            key: "doomed".to_owned(),
        })
        .expect("delete should commit");

    for node_id in cluster.node_ids() {
        let node = cluster.node(node_id).expect("node should exist");
        assert_eq!(node.get("doomed"), None);
        assert_eq!(node.log_len(), 2);
        assert_eq!(node.commit_index(), 2);
    }
}

#[test]
fn does_not_commit_without_quorum() {
    let mut cluster = RaftCluster::new(vec![1, 2, 3, 4, 5]).expect("cluster should build");

    cluster.disconnect(2).expect("node 2 should disconnect");
    cluster.disconnect(3).expect("node 3 should disconnect");
    cluster.disconnect(4).expect("node 4 should disconnect");

    let outcome = cluster
        .propose(Command::Put {
            key: "x".to_owned(),
            value: "uncommitted".to_owned(),
        })
        .expect("proposal should be appended");

    assert_eq!(outcome.index, 1);
    assert_eq!(outcome.committed_nodes, 0);

    let leader = cluster.node(1).expect("leader exists");
    assert_eq!(leader.log_len(), 1);
    assert_eq!(leader.commit_index(), 0);
    assert_eq!(leader.get("x"), None);
}

#[test]
fn reconnect_catches_up_lagging_follower() {
    let mut cluster = RaftCluster::new(vec![1, 2, 3]).expect("cluster should build");

    cluster.disconnect(3).expect("node 3 should disconnect");
    assert!(!cluster
        .is_connected_to_leader(3)
        .expect("connection state should be readable"));

    cluster
        .propose(Command::Put {
            key: "a".to_owned(),
            value: "1".to_owned(),
        })
        .expect("first proposal should commit");

    cluster
        .propose(Command::Put {
            key: "b".to_owned(),
            value: "2".to_owned(),
        })
        .expect("second proposal should commit");

    let lagging = cluster.node(3).expect("node 3 exists");
    assert_eq!(lagging.log_len(), 0);
    assert_eq!(lagging.commit_index(), 0);

    cluster.reconnect(3).expect("node 3 should reconnect");

    let recovered = cluster.node(3).expect("node 3 exists");
    assert_eq!(recovered.log_len(), 2);
    assert_eq!(recovered.commit_index(), 2);
    assert_eq!(recovered.get("a"), Some("1"));
    assert_eq!(recovered.get("b"), Some("2"));
}

#[test]
fn conflicting_follower_entry_is_repaired_on_reconnect() {
    let mut cluster = RaftCluster::new(vec![1, 2, 3]).expect("cluster should build");

    cluster
        .propose(Command::Put {
            key: "seed".to_owned(),
            value: "ok".to_owned(),
        })
        .expect("seed proposal should commit");

    cluster.disconnect(3).expect("node 3 should disconnect");

    cluster
        .propose(Command::Put {
            key: "target".to_owned(),
            value: "authoritative".to_owned(),
        })
        .expect("authoritative proposal should commit");

    {
        let follower = member(&mut cluster, 3);
        follower.log.truncate_from(2);
        follower.log.append(LogEntry {
            term: 99,
            index: 2,
            command: Command::Put {
                key: "target".to_owned(),
                value: "stale".to_owned(),
            },
        });
    }

    cluster.reconnect(3).expect("node 3 should reconnect");

    let repaired = cluster.node(3).expect("node 3 exists");
    assert_eq!(repaired.log_len(), 2);
    assert_eq!(repaired.commit_index(), 2);
    assert_eq!(repaired.get("target"), Some("authoritative"));
}
