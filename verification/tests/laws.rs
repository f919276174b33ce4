use anvildb::api_service::ApiService;
use anvildb::api_types::{
    ClientRequest, ClientResponse, NodeAddress, ReadConsistency, RequestEnvelope, ResponseEnvelope,
    TimeoutOperation, TransportConfig,
};
use anvildb::memlog::MemLog;
use anvildb::mvcc::{MvccCatalog, VersionChain};
use anvildb::ordered::OrderedMap;
use anvildb::raft_cluster::RaftCluster;
use anvildb::raft_node::{
    election_jitter_for, election_timeout_for, RaftNode, RequestVote, Role,
    MIN_ELECTION_TIMEOUT_TICKS,
};
use anvildb::snapshot_codec::{
    decode_commit_index, decode_meta, decode_snapshot, encode_commit_index, encode_meta,
    encode_snapshot, PersistentRaftMeta, SnapshotData,
};
use anvildb::sql_ast::{
    ColumnName, ComparisonOp, KvExecutionPlan, LogicalPlan, Predicate, SqlStatement, TableName,
};
use anvildb::sql_lexer::{lex, Token};
use anvildb::sql_parser::parse_statement;
use anvildb::sql_plan::{evaluate_predicate, lower_plan_for_kv, plan_sql};
use anvildb::state_machine::InMemoryStateMachine;
use anvildb::transport::{
    interpret_reply, GrpcWireServer, InProcessTransport, Transport, TransportError,
    DEFAULT_GRPC_METHOD_PATH,
};
use anvildb::types::{Command, DbError, LogEntry, NodeId};
use anvildb::wal::{
    apply_entry, recover_node_from_wal, recover_state_from_wal, try_recover_state_from_wal, Wal,
};
use anvildb::wal_codec::{decode_entries, decode_entry, encode_entry, encode_log};
use anvildb::wire_codec::GrpcWireCodec;

fn put(key: &str, value: &str) -> Command {
    Command::Put {
        key: key.to_owned(),
        value: value.to_owned(),
    }
}

fn delete(key: &str) -> Command {
    Command::Delete {
        key: key.to_owned(),
    }
}

fn entry(term: u64, index: u64, command: Command) -> LogEntry {
    LogEntry {
        term,
        index,
        command,
    }
}

fn client() -> NodeAddress {
    NodeAddress::new(9_001, "client://laws".to_owned())
}

fn ask(
    api: &mut ApiService,
    to: NodeId,
    timeout_ticks: Option<u64>,
    request: ClientRequest,
) -> ClientResponse {
    let to = api.address_for(to).expect("member").clone();
    api.handle(RequestEnvelope {
        request_id: 7,
        from: client(),
        to,
        timeout_ticks,
        request,
    })
    .response
}

fn write(api: &mut ApiService, to: NodeId, command: Command) -> ClientResponse {
    ask(api, to, None, ClientRequest::Write(command))
}

fn read(api: &mut ApiService, to: NodeId, key: &str, consistency: ReadConsistency) -> Option<String> {
    let response = ask(
        api,
        to,
        None,
        ClientRequest::Read {
            key: key.to_owned(),
            consistency,
        },
    );
    match response {
        ClientResponse::ReadResult { value, .. } => value,
        other => panic!("unexpected response {other:?}"),
    }
}

fn sql(api: &mut ApiService, query: &str) -> ClientResponse {
    ask(
        api,
        1,
        None,
        ClientRequest::Sql {
            query: query.to_owned(),
            read_consistency: ReadConsistency::Linearizable,
        },
    )
}

fn member(cluster: &mut RaftCluster, id: NodeId) -> &mut RaftNode {
    cluster
        .nodes
        .iter_mut()
        .find(|node| node.id() == id)
        .expect("member")
}

fn blank_files(ids: &[NodeId]) -> Vec<Wal> {
    ids.iter()
        .map(|id| Wal::open(format!("node-{id}.wal")).expect("opens"))
        .collect()
}

fn files_of(cluster: &RaftCluster) -> Vec<Wal> {
    cluster
        .nodes
        .iter()
        .map(|node| node.wal.clone().expect("durable"))
        .collect()
}

#[test]
fn wal_record_has_its_exact_bytes_and_reads_back() {
    let record = entry(3, 7, put("ab", "c"));
    let mut bytes = Vec::new();
    encode_entry(&record, &mut bytes).expect("fits");
    assert_eq!(
        bytes,
        vec![
            1, 3, 0, 0, 0, 0, 0, 0, 0, 7, 0, 0, 0, 0, 0, 0, 0, 2, 0, 0, 0, 1, 0, 0, 0, b'a', b'b',
            b'c'
        ]
    );
    bytes.push(9);
    let (back, used) = decode_entry(&bytes).expect("decodes");
    assert_eq!(back, record);
    assert_eq!(used, 28);
}

#[test]
fn wal_log_reads_back_and_is_canonical() {
    let entries = vec![
        entry(1, 1, put("a", "1")),
        entry(2, 2, delete("a")),
        entry(2, 3, put("", "")),
    ];
    let bytes = encode_log(&entries).expect("fits");
    let back = decode_entries(&bytes).expect("decodes");
    assert_eq!(back, entries);
    assert_eq!(encode_log(&back).expect("fits"), bytes);
}

#[test]
fn commit_index_and_meta_and_snapshot_read_back() {
    assert_eq!(encode_commit_index(258), vec![2, 1, 0, 0, 0, 0, 0, 0]);
    assert_eq!(decode_commit_index(&encode_commit_index(u64::MAX)), Ok(u64::MAX));
    assert_eq!(
        encode_meta(5, Some(3)),
        vec![5, 0, 0, 0, 0, 0, 0, 0, 1, 3, 0, 0, 0, 0, 0, 0, 0]
    );
    assert_eq!(
        decode_meta(&encode_meta(6, None)),
        Ok(PersistentRaftMeta {
            current_term: 6,
            voted_for: None
        })
    );
    let mut state = OrderedMap::new();
    state.insert("b".to_owned(), "2".to_owned());
    state.insert("a".to_owned(), "1".to_owned());
    let data = SnapshotData {
        last_included_index: 4,
        last_included_term: 2,
        state,
    };
    let bytes = encode_snapshot(&data).expect("fits");
    assert_eq!(bytes.len(), 8 + 8 + 4 + 2 * (4 + 4 + 1 + 1));
    assert_eq!(bytes[28], b'a');
    assert_eq!(decode_snapshot(&bytes), Ok(Some(data)));
    assert_eq!(decode_snapshot(&[]), Ok(None));
}

#[test]
fn log_keeps_what_is_appended_compacted_and_truncated() {
    let mut log = MemLog::default();
    for index in 1..=5 {
        log.append(entry(1, index, put("k", &index.to_string())));
    }
    assert_eq!(log.get(3).map(|e| e.index), Some(3));
    log.install_snapshot(2, 1);
    assert_eq!(log.get(2), None);
    assert_eq!(log.term_at(2), Some(1));
    assert_eq!(log.get(3).map(|e| e.index), Some(3));
    log.truncate_from(5);
    assert_eq!(log.last_index(), 4);
    assert_eq!(log.get(4).map(|e| e.index), Some(4));
    assert_eq!(log.entries_from(4).len(), 1);
    assert_eq!(log.entries_from(9).len(), 0);
}

#[test]
fn state_machine_returns_what_it_replaces() {
    let mut machine = InMemoryStateMachine::default();
    assert_eq!(machine.apply(&put("a", "1")), None);
    assert_eq!(machine.apply(&put("a", "2")), Some("1".to_owned()));
    assert_eq!(machine.get("a"), Some("2"));
    assert_eq!(machine.apply(&delete("a")), Some("2".to_owned()));
    assert_eq!(machine.apply(&delete("a")), None);
    assert_eq!(machine.get("a"), None);
}

#[test]
fn replaying_in_parts_replays_the_whole() {
    let commands = [put("a", "1"), put("b", "2"), delete("a"), put("b", "3")];
    let mut whole = InMemoryStateMachine::default();
    let mut parts = InMemoryStateMachine::default();
    for command in &commands {
        whole.apply(command);
    }
    for command in &commands[..2] {
        parts.apply(command);
    }
    let mut rest = InMemoryStateMachine::default();
    rest.replace_with_snapshot(parts.snapshot());
    for command in &commands[2..] {
        rest.apply(command);
    }
    assert_eq!(whole.snapshot(), rest.snapshot());
}

#[test]
fn ordered_map_stays_in_key_order() {
    let mut map = OrderedMap::new();
    for key in ["m", "a", "z", "\u{e9}", "b", "a"] {
        map.insert(key.to_owned(), key.len().to_string());
    }
    let keys: Vec<&str> = map.entries.iter().map(|(key, _)| key.as_str()).collect();
    assert_eq!(keys, vec!["a", "b", "m", "z", "\u{e9}"]);
    assert_eq!(map.remove("m"), Some("1".to_owned()));
    assert_eq!(map.get("m"), None);
    assert_eq!(map.len(), 4);
}

#[test]
fn applying_an_entry_needs_the_entry() {
    let mut log = MemLog::default();
    log.append(entry(1, 1, put("a", "1")));
    let mut machine = InMemoryStateMachine::default();
    assert_eq!(apply_entry(&log, &mut machine, 1), Ok(None));
    assert_eq!(machine.get("a"), Some("1"));
    assert_eq!(
        apply_entry(&log, &mut machine, 2),
        Err(DbError::MissingLogEntry(2))
    );
}

#[test]
fn recovery_of_state_asks_that_entries_follow_the_snapshot() {
    let mut wal = Wal::open("gap.bin".to_owned()).expect("opens");
    wal.persist_snapshot(&SnapshotData {
        last_included_index: 5,
        last_included_term: 2,
        state: OrderedMap::new(),
    })
    .expect("fits");
    wal.append(&entry(3, 7, put("x", "gap"))).expect("fits");
    assert!(try_recover_state_from_wal(&wal).is_none());
    assert!(matches!(
        recover_node_from_wal(&wal),
        Err(DbError::CorruptWal(message))
        if message == "WAL after snapshot must start at index 6, found 7"
    ));

    let mut sound = Wal::open("sound.bin".to_owned()).expect("opens");
    sound.append(&entry(1, 1, put("x", "1"))).expect("fits");
    let (log, machine) = try_recover_state_from_wal(&sound)
        .expect("follows")
        .expect("recovers");
    assert_eq!(log.len(), 1);
    assert_eq!(machine.get("x"), Some("1"));
    let (same, _) = recover_state_from_wal(&sound).expect("recovers");
    assert_eq!(same.last_index(), 1);
}

#[test]
fn rewriting_a_log_keeps_the_wanted_entries() {
    let mut wal = Wal::open("rewrite.bin".to_owned()).expect("opens");
    for index in 1..=4 {
        wal.append(&entry(1, index, put("k", &index.to_string())))
            .expect("fits");
    }
    wal.truncate_to(3).expect("rewrites");
    wal.truncate_prefix(1).expect("rewrites");
    let indexes: Vec<u64> = wal.load().expect("loads").iter().map(|e| e.index).collect();
    assert_eq!(indexes, vec![2, 3]);
}

#[test]
fn election_timeouts_have_their_exact_values_and_bounds() {
    assert_eq!(election_jitter_for(1, 1), (37 + 17) % 5);
    assert_eq!(election_timeout_for(1, 1, 0), 6 + 4);
    assert_eq!(election_timeout_for(2, 3, 2), 24 + (74 + 51) % 5);
    assert_eq!(election_timeout_for(1, 1, 9), 96 + 4);
    for id in 0..20 {
        for term in 0..20 {
            let timeout = election_timeout_for(id, term, 0);
            assert!(timeout >= MIN_ELECTION_TIMEOUT_TICKS);
            assert!(timeout < MIN_ELECTION_TIMEOUT_TICKS + 5);
        }
    }
    let top = election_jitter_for(u64::MAX, u64::MAX);
    assert!(top < 5);
}

#[test]
fn a_member_votes_once_per_term_and_for_the_up_to_date_only() {
    let mut voter = RaftNode::new(3, Role::Follower, 1);
    let first = RequestVote {
        term: 2,
        candidate_id: 1,
        last_log_index: 0,
        last_log_term: 0,
    };
    let second = RequestVote {
        candidate_id: 2,
        ..first
    };
    assert!(voter.request_vote(&first).vote_granted);
    assert!(!voter.request_vote(&second).vote_granted);
    assert!(voter.request_vote(&first).vote_granted);
    let stale = RequestVote { term: 1, ..first };
    let refused = voter.request_vote(&stale);
    assert!(!refused.vote_granted);
    assert_eq!(refused.term, 2);

    let mut ahead = RaftNode::new(4, Role::Follower, 1);
    ahead.append_local_entry(put("a", "1"), 1).expect("appends");
    assert!(!ahead.request_vote(&first).vote_granted);
    let caught_up = RequestVote {
        term: 3,
        last_log_index: 1,
        last_log_term: 1,
        ..first
    };
    assert!(ahead.request_vote(&caught_up).vote_granted);
}

#[test]
fn a_member_takes_entries_only_behind_one_it_has() {
    let mut node = RaftNode::new(2, Role::Follower, 1);
    let batch = vec![entry(1, 2, put("b", "2"))];
    assert_eq!(
        node.append_entries_from_leader(1, 1, 1, &batch, 0),
        Ok(false)
    );
    let batch = vec![entry(1, 1, put("a", "1")), entry(1, 2, put("b", "2"))];
    assert_eq!(node.append_entries_from_leader(1, 0, 0, &batch, 1), Ok(true));
    assert_eq!(node.commit_index(), 1);
    assert_eq!(node.get("a"), Some("1"));
    assert_eq!(node.get("b"), None);
    let conflicting = vec![entry(2, 2, put("b", "other"))];
    assert_eq!(
        node.append_entries_from_leader(2, 1, 1, &conflicting, 2),
        Ok(true)
    );
    assert_eq!(node.current_term(), 2);
    assert_eq!(node.get("b"), Some("other"));
    let old = vec![entry(1, 3, put("c", "3"))];
    assert_eq!(node.append_entries_from_leader(1, 2, 1, &old, 3), Ok(false));
}

#[test]
fn an_office_has_one_holder_and_terms_go_up() {
    let mut cluster = RaftCluster::new(vec![5, 3, 9]).expect("builds");
    assert_eq!(cluster.node_ids(), vec![3, 5, 9]);
    assert_eq!(cluster.leader_id(), 5);
    let before = cluster.node(5).expect("member").current_term();
    let outcome = cluster.start_election(9).expect("runs");
    assert!(outcome.elected);
    assert!(outcome.votes_received >= 2);
    assert!(outcome.term > before);
    let leaders: Vec<NodeId> = cluster
        .nodes
        .iter()
        .filter(|node| node.role() == Role::Leader)
        .map(RaftNode::id)
        .collect();
    assert_eq!(leaders, vec![9]);
}

#[test]
fn a_minority_commits_no_proposal() {
    let mut cluster = RaftCluster::new(vec![1, 2, 3, 4, 5]).expect("builds");
    for id in [3, 4, 5] {
        cluster.disconnect(id).expect("member");
    }
    let outcome = cluster.propose(put("x", "1")).expect("leader");
    assert_eq!(outcome.index, 1);
    assert_eq!(outcome.committed_nodes, 0);
    assert!(cluster.nodes.iter().all(|node| node.commit_index() == 0));
}

#[test]
fn a_connected_majority_commits() {
    let mut cluster = RaftCluster::new(vec![1, 2, 3, 4, 5]).expect("builds");
    cluster.disconnect(4).expect("member");
    cluster.disconnect(5).expect("member");
    let outcome = cluster.propose(put("x", "1")).expect("leader");
    assert_eq!(outcome.committed_nodes, 3);
    for id in [1, 2, 3] {
        let node = cluster.node(id).expect("member");
        assert_eq!(node.commit_index(), 1);
        assert_eq!(node.get("x"), Some("1"));
    }
    assert_eq!(cluster.node(4).expect("member").get("x"), None);
}

#[test]
fn durable_members_come_back_as_they_were() {
    let ids = vec![1, 2, 3];
    let mut cluster = RaftCluster::new_durable(ids.clone(), blank_files(&ids)).expect("builds");
    cluster.propose(put("a", "1")).expect("leader");
    cluster.propose(put("b", "2")).expect("leader");
    cluster.create_leader_snapshot().expect("leader");
    cluster.propose(delete("a")).expect("leader");
    let again = RaftCluster::new_durable(ids, files_of(&cluster)).expect("recovers");
    for (old, new) in cluster.nodes.iter().zip(again.nodes.iter()) {
        assert_eq!(old.snapshot(), new.snapshot());
        assert_eq!(old.commit_index(), new.commit_index());
        assert_eq!(old.log_base_index(), new.log_base_index());
        assert_eq!(old.log_len(), new.log_len());
        assert_eq!(old.current_term(), new.current_term());
    }
}

#[test]
fn files_for_every_member_are_asked_for() {
    assert!(RaftCluster::try_new_durable(vec![1, 2, 3], blank_files(&[1, 2])).is_none());
    let built = RaftCluster::try_new_durable(vec![1, 2, 3], blank_files(&[1, 2, 3]));
    assert!(matches!(built, Some(Ok(_))));
    let small = RaftCluster::try_new_durable(vec![1, 2], blank_files(&[1, 2]));
    assert!(matches!(small, Some(Err(DbError::ClusterTooSmall))));
}

#[test]
fn a_quoted_literal_reads_back() {
    let tokens = lex("'it''s' , x").expect("lexes");
    assert_eq!(
        tokens,
        vec![
            Token::StringLiteral("it's".to_owned()),
            Token::Comma,
            Token::Word("x".to_owned())
        ]
    );
}

#[test]
fn planned_statements_lower_to_what_they_say() {
    let plan = plan_sql("select * from kv").expect("plans");
    assert!(matches!(&plan, LogicalPlan::Projection { input, .. }
        if matches!(**input, LogicalPlan::Scan { .. })));
    assert_eq!(
        lower_plan_for_kv(&plan),
        Ok(KvExecutionPlan::Select {
            columns: vec![ColumnName::Key, ColumnName::Value],
            predicate: None
        })
    );
    let twice = LogicalPlan::Projection {
        input: Box::new(plan),
        columns: vec![ColumnName::Key],
    };
    assert_eq!(
        lower_plan_for_kv(&twice).expect_err("two projections").to_string(),
        "sql error: multiple projection nodes are not supported"
    );
}

#[test]
fn a_row_meets_a_predicate_or_its_opposite() {
    for value in ["x", "y"] {
        let equal = Predicate {
            column: ColumnName::Value,
            op: ComparisonOp::Eq,
            value: value.to_owned(),
        };
        let different = Predicate {
            op: ComparisonOp::NotEq,
            ..equal.clone()
        };
        assert_ne!(
            evaluate_predicate("k", "x", &equal),
            evaluate_predicate("k", "x", &different)
        );
    }
}

#[test]
fn versions_are_seen_from_their_time_on() {
    let mut chain = VersionChain::default();
    chain.append_committed(1, 10, Some("a".to_owned()));
    chain.append_committed(2, 20, None);
    chain.append_committed(3, 30, Some("c".to_owned()));
    let at = |ts| chain.latest_visible(ts).map(|v| v.value.clone());
    assert_eq!(at(9), None);
    assert_eq!(at(10), Some(Some("a".to_owned())));
    assert_eq!(at(19), Some(Some("a".to_owned())));
    assert_eq!(at(20), Some(None));
    assert_eq!(at(99), Some(Some("c".to_owned())));
}

#[test]
fn visible_rows_are_the_readable_keys() {
    let mut catalog = MvccCatalog::default();
    catalog.apply_committed_put("b".to_owned(), "2".to_owned(), 1, 1);
    catalog.apply_committed_put("a".to_owned(), "1".to_owned(), 2, 2);
    catalog.apply_committed_delete("b".to_owned(), 3, 3);
    assert_eq!(
        catalog.visible_rows(2),
        vec![
            ("a".to_owned(), "1".to_owned()),
            ("b".to_owned(), "2".to_owned())
        ]
    );
    assert_eq!(
        catalog.visible_rows(3),
        vec![("a".to_owned(), "1".to_owned())]
    );
}

#[test]
fn what_is_written_is_read_at_every_connected_member() {
    let cluster = RaftCluster::new(vec![1, 2, 3]).expect("builds");
    let mut api = ApiService::new(cluster);
    assert_eq!(
        write(&mut api, 1, put("k", "v")),
        ClientResponse::WriteCommitted {
            index: 1,
            committed_nodes: 3
        }
    );
    for id in [1, 2, 3] {
        assert_eq!(
            read(&mut api, id, "k", ReadConsistency::Eventual),
            Some("v".to_owned())
        );
    }
    assert_eq!(
        read(&mut api, 1, "k", ReadConsistency::Linearizable),
        Some("v".to_owned())
    );
    write(&mut api, 1, delete("k"));
    assert_eq!(read(&mut api, 1, "k", ReadConsistency::Linearizable), None);
}

#[test]
fn reads_return_the_state_of_a_restored_leader() {
    let ids = vec![1, 2, 3];
    let mut cluster = RaftCluster::new_durable(ids.clone(), blank_files(&ids)).expect("builds");
    cluster.propose(put("k", "old")).expect("leader");
    let again = RaftCluster::new_durable(ids, files_of(&cluster)).expect("recovers");
    let mut api = ApiService::new(again);
    assert_eq!(
        read(&mut api, 1, "k", ReadConsistency::Linearizable),
        Some("old".to_owned())
    );
    write(&mut api, 1, put("k", "new"));
    assert_eq!(
        read(&mut api, 1, "k", ReadConsistency::Linearizable),
        Some("new".to_owned())
    );
}

#[test]
fn followers_redirect_writes_and_linearizable_reads() {
    let mut api = ApiService::new(RaftCluster::new(vec![1, 2, 3]).expect("builds"));
    let leader = api.leader_address();
    let answer = ClientResponse::Redirect {
        leader: leader.clone(),
    };
    assert_eq!(write(&mut api, 2, put("k", "v")), answer);
    let request = ClientRequest::Read {
        key: "k".to_owned(),
        consistency: ReadConsistency::Linearizable,
    };
    assert_eq!(ask(&mut api, 3, None, request), answer);
    assert_eq!(api.cluster().node(1).expect("member").log_len(), 0);
}

#[test]
fn responses_answer_their_requests() {
    let mut api = ApiService::new(RaftCluster::new(vec![1, 2, 3]).expect("builds"));
    let strange = NodeAddress::new(8, "nowhere".to_owned());
    let response = api.handle(RequestEnvelope {
        request_id: 77,
        from: client(),
        to: strange.clone(),
        timeout_ticks: None,
        request: ClientRequest::Write(put("k", "v")),
    });
    assert_eq!(
        response,
        ResponseEnvelope {
            request_id: 77,
            from: strange,
            to: client(),
            response: ClientResponse::RouteError {
                message: "unknown destination 8 (nowhere)".to_owned()
            },
        }
    );
}

#[test]
fn leases_are_shorter_than_election_timeouts() {
    let mut api = ApiService::with_config(
        RaftCluster::new(vec![1, 2, 3]).expect("builds"),
        TransportConfig {
            read_lease_ticks: 1_000,
            ..TransportConfig::default()
        },
    );
    assert_eq!(api.config.read_lease_ticks, MIN_ELECTION_TIMEOUT_TICKS - 1);
    read(&mut api, 1, "k", ReadConsistency::Linearizable);
    let lease = api.read_lease.expect("granted");
    assert_eq!(lease.leader_id, 1);
    assert_eq!(lease.acknowledged_nodes, 3);
    assert_eq!(lease.expires_at_tick - lease.issued_at_tick, 5);
    assert_eq!(api.active_read_lease(), Some(lease));
    api.cluster_mut().tick_many(6).expect("ticks");
    assert_eq!(api.active_read_lease(), None);
}

#[test]
fn mutations_write_the_matching_rows_only() {
    let mut api = ApiService::new(RaftCluster::new(vec![1, 2, 3]).expect("builds"));
    for (key, value) in [("a", "x"), ("b", "y"), ("c", "x")] {
        write(&mut api, 1, put(key, value));
    }
    assert_eq!(
        sql(&mut api, "UPDATE kv SET value = 'z' WHERE value = 'x'"),
        ClientResponse::SqlWriteResult {
            affected_rows: 2,
            last_index: Some(5),
            committed_nodes: 3
        }
    );
    assert_eq!(
        sql(&mut api, "DELETE FROM kv WHERE key != 'a'"),
        ClientResponse::SqlWriteResult {
            affected_rows: 2,
            last_index: Some(7),
            committed_nodes: 3
        }
    );
    assert_eq!(
        sql(&mut api, "SELECT * FROM kv"),
        ClientResponse::SqlRows {
            columns: vec!["key".to_owned(), "value".to_owned()],
            rows: vec![vec!["a".to_owned(), "z".to_owned()]],
            consistency: ReadConsistency::Linearizable
        }
    );
    assert_eq!(
        sql(&mut api, "DELETE FROM kv WHERE key = 'nobody'"),
        ClientResponse::SqlWriteResult {
            affected_rows: 0,
            last_index: None,
            committed_nodes: 0
        }
    );
}

#[test]
fn writes_without_a_quorum_time_out_with_what_was_seen() {
    let mut api = ApiService::new(RaftCluster::new(vec![1, 2, 3]).expect("builds"));
    api.cluster_mut().disconnect(2).expect("member");
    api.cluster_mut().disconnect(3).expect("member");
    let response = ask(&mut api, 1, Some(3), ClientRequest::Write(put("k", "v")));
    assert_eq!(
        response,
        ClientResponse::TimedOut {
            operation: TimeoutOperation::Proposal,
            index: Some(1),
            observed_nodes: 0
        }
    );
    assert_eq!(api.cluster().clock_ticks(), 3);
}

#[test]
fn a_lost_leader_is_an_internal_error() {
    let mut api = ApiService::new(RaftCluster::new(vec![1, 2, 3]).expect("builds"));
    member(api.cluster_mut(), 1).become_follower(4);
    assert_eq!(
        write(&mut api, 1, put("k", "v")),
        ClientResponse::InternalError {
            message: "leader 1 missing from cluster".to_owned()
        }
    );
}

#[test]
fn requests_without_room_are_not_taken() {
    let mut api = ApiService::new(RaftCluster::new(vec![1, 2, 3]).expect("builds"));
    let to = api.leader_address();
    let envelope = |timeout_ticks| RequestEnvelope {
        request_id: 1,
        from: client(),
        to: to.clone(),
        timeout_ticks,
        request: ClientRequest::Write(put("k", "v")),
    };
    assert!(!api.has_room_for(&envelope(Some(u64::MAX))));
    assert_eq!(api.try_handle(envelope(Some(u64::MAX))), None);
    assert_eq!(api.cluster().node(1).expect("member").log_len(), 0);
    assert!(api.has_room_for(&envelope(Some(10))));
    assert!(api.try_handle(envelope(Some(10))).is_some());
    assert!(api.cluster().has_room(1_000));
    assert!(!api.cluster().has_room(u64::MAX as u128));
    assert!(api.cluster().has_log_room(1_000));
    assert!(!api.cluster().has_log_room(u64::MAX as u128));
}

#[test]
fn the_wire_answers_as_the_process_does() {
    let mut near = ApiService::new(RaftCluster::new(vec![1, 2, 3]).expect("builds"));
    let mut far = GrpcWireServer::new(ApiService::new(
        RaftCluster::new(vec![1, 2, 3]).expect("builds"),
    ));
    let request = RequestEnvelope {
        request_id: 5,
        from: client(),
        to: near.leader_address(),
        timeout_ticks: None,
        request: ClientRequest::Write(put("k", "v")),
    };
    let bytes = GrpcWireCodec::encode_request(&request).expect("encodes");
    let mut transport: InProcessTransport<'_> = near.in_process_transport();
    let direct = transport.round_trip(request).expect("answers");
    let chunks: Vec<Vec<u8>> = bytes.chunks(5).map(<[u8]>::to_vec).collect();
    let reply = far
        .try_handle_unary_chunked_bytes(DEFAULT_GRPC_METHOD_PATH, &chunks)
        .expect("room");
    assert_eq!(interpret_reply(reply), Ok(direct));
    assert_eq!(far.service().cluster().leader_id(), 1);
}

#[test]
fn broken_bytes_change_nothing() {
    let service = ApiService::new(RaftCluster::new(vec![1, 2, 3]).expect("builds"));
    let to = service.leader_address();
    let mut server = GrpcWireServer::new(service);
    let request = RequestEnvelope {
        request_id: 5,
        from: client(),
        to,
        timeout_ticks: Some(4),
        request: ClientRequest::Write(put("k", "v")),
    };
    let whole = GrpcWireCodec::encode_request(&request).expect("encodes");
    for n in 0..whole.len() {
        assert!(server
            .handle_unary_bytes(DEFAULT_GRPC_METHOD_PATH, &whole[..n])
            .is_err());
    }
    let mut longer = whole.clone();
    longer.push(0);
    assert_eq!(
        server.handle_unary_bytes(DEFAULT_GRPC_METHOD_PATH, &longer),
        Err(TransportError::Remote(
            "invalid gRPC payload: 1 trailing bytes remain".to_owned()
        ))
    );
    assert_eq!(
        server.handle_unary_bytes("/other", &whole),
        Err(TransportError::Remote(
            "unsupported gRPC method path: /other".to_owned()
        ))
    );
    assert_eq!(
        server.service_mut().cluster_mut().node(1).expect("member").log_len(),
        0
    );
}

#[test]
fn a_member_that_fell_behind_catches_up() {
    let mut cluster = RaftCluster::new(vec![1, 2, 3]).expect("builds");
    cluster.disconnect(3).expect("member");
    cluster.propose(put("a", "1")).expect("leader");
    cluster.propose(put("b", "2")).expect("leader");
    assert_eq!(cluster.node(3).expect("member").log_len(), 0);
    cluster.reconnect(3).expect("member");
    let (leader, late) = (cluster.node(1).expect("leader"), cluster.node(3).expect("member"));
    assert_eq!(late.entries_from(1), leader.entries_from(1));
    assert_eq!(late.commit_index(), 2);
    assert_eq!(late.snapshot(), leader.snapshot());
}

#[test]
fn a_member_that_fell_behind_a_snapshot_catches_up() {
    let mut cluster = RaftCluster::new(vec![1, 2, 3]).expect("builds");
    cluster.disconnect(3).expect("member");
    cluster.propose(put("a", "1")).expect("leader");
    cluster.propose(put("b", "2")).expect("leader");
    assert_eq!(cluster.create_leader_snapshot(), Ok(Some(2)));
    cluster.propose(put("c", "3")).expect("leader");
    cluster.reconnect(3).expect("member");
    let (leader, late) = (cluster.node(1).expect("leader"), cluster.node(3).expect("member"));
    assert_eq!(late.log_base_index(), 2);
    assert_eq!(late.entries_from(3), leader.entries_from(3));
    assert_eq!(late.commit_index(), 3);
    assert_eq!(late.snapshot(), leader.snapshot());
}

#[test]
fn a_snapshot_changes_no_state() {
    let mut cluster = RaftCluster::new(vec![1, 2, 3]).expect("builds");
    cluster.propose(put("a", "1")).expect("leader");
    cluster.propose(delete("a")).expect("leader");
    cluster.propose(put("b", "2")).expect("leader");
    let before = cluster.leader_snapshot().expect("leader");
    assert_eq!(cluster.create_leader_snapshot(), Ok(Some(3)));
    assert_eq!(cluster.leader_snapshot(), Ok(before));
    let leader = cluster.node(1).expect("leader");
    assert_eq!(leader.commit_index(), 3);
    assert_eq!(leader.last_index(), 3);
    assert_eq!(leader.log_len(), 0);
}

#[test]
fn an_inserted_row_is_selected_by_its_key() {
    let mut api = ApiService::new(RaftCluster::new(vec![1, 2, 3]).expect("builds"));
    sql(&mut api, "INSERT INTO kv (key, value) VALUES ('k1', 'first')");
    sql(&mut api, "INSERT INTO kv (key, value) VALUES ('k2', 'second')");
    assert_eq!(
        sql(&mut api, "SELECT value FROM kv WHERE key = 'k1'"),
        ClientResponse::SqlRows {
            columns: vec!["value".to_owned()],
            rows: vec![vec!["first".to_owned()]],
            consistency: ReadConsistency::Linearizable,
        }
    );
}

#[test]
fn a_read_without_a_quorum_waits_all_of_its_timeout() {
    let mut api = ApiService::new(RaftCluster::new(vec![1, 2, 3]).expect("builds"));
    api.cluster_mut().disconnect(2).expect("member");
    api.cluster_mut().disconnect(3).expect("member");
    let response = ask(
        &mut api,
        1,
        Some(2),
        ClientRequest::Read {
            key: "k".to_owned(),
            consistency: ReadConsistency::Linearizable,
        },
    );
    assert_eq!(
        response,
        ClientResponse::TimedOut {
            operation: TimeoutOperation::LinearizableRead,
            index: None,
            observed_nodes: 1
        }
    );
    assert_eq!(api.cluster().clock_ticks(), 2);
}

#[test]
fn a_read_that_is_answered_rests_on_a_lease() {
    let mut api = ApiService::new(RaftCluster::new(vec![1, 2, 3]).expect("builds"));
    assert!(api.active_read_lease().is_none());
    assert_eq!(read(&mut api, 1, "k", ReadConsistency::Linearizable), None);
    let lease = api.active_read_lease().expect("lease");
    assert_eq!(lease.acknowledged_nodes, 3);
    assert_eq!(lease.issued_at_tick, 0);
    api.cluster_mut().disconnect(2).expect("member");
    api.cluster_mut().disconnect(3).expect("member");
    assert_eq!(read(&mut api, 1, "k", ReadConsistency::Linearizable), None);
}

#[test]
fn a_stale_tail_is_no_replica() {
    let mut cluster = RaftCluster::new(vec![1, 2, 3]).expect("builds");
    cluster.propose(put("a", "1")).expect("leader");
    cluster.disconnect(2).expect("member");
    cluster.disconnect(3).expect("member");
    cluster.propose(put("b", "2")).expect("leader");
    cluster.disconnect(1).expect("member");
    cluster.reconnect(2).expect("member");
    cluster.reconnect(3).expect("member");
    assert!(cluster.start_election(2).expect("member").elected);
    cluster.reconnect(1).expect("member");
    cluster.disconnect(1).expect("member");
    cluster.disconnect(3).expect("member");
    let outcome = cluster.propose(put("c", "3")).expect("leader");
    assert_eq!(outcome.index, 2);
    assert_eq!(outcome.committed_nodes, 0);
    assert_eq!(cluster.node(2).expect("member").commit_index(), 1);
    assert_eq!(cluster.node(2).expect("member").get("c"), None);
}

#[test]
fn entries_committed_along_with_a_write_are_read() {
    let mut api = ApiService::new(RaftCluster::new(vec![1, 2, 3, 4, 5]).expect("builds"));
    for id in [3, 4, 5] {
        api.cluster_mut().disconnect(id).expect("member");
    }
    let late = ask(&mut api, 1, Some(2), ClientRequest::Write(put("x", "1")));
    assert!(matches!(late, ClientResponse::TimedOut { .. }));
    for id in [3, 4, 5] {
        api.cluster_mut().reconnect(id).expect("member");
    }
    let written = write(&mut api, 1, put("y", "2"));
    assert_eq!(
        written,
        ClientResponse::WriteCommitted {
            index: 2,
            committed_nodes: 5
        }
    );
    assert_eq!(api.cluster().node(1).expect("member").get("x"), Some("1"));
    assert_eq!(
        read(&mut api, 1, "x", ReadConsistency::Linearizable),
        Some("1".to_owned())
    );
    assert_eq!(
        read(&mut api, 1, "y", ReadConsistency::Linearizable),
        Some("2".to_owned())
    );
}

#[test]
fn a_snapshot_replaces_entries_that_contradict_it() {
    let mut cluster = RaftCluster::new(vec![1, 2, 3]).expect("builds");
    cluster.disconnect(2).expect("member");
    cluster.disconnect(3).expect("member");
    cluster.propose(put("k", "lost")).expect("leader");
    cluster.propose(put("k", "lost too")).expect("leader");
    cluster.disconnect(1).expect("member");
    cluster.reconnect(2).expect("member");
    cluster.reconnect(3).expect("member");
    assert!(cluster.start_election(2).expect("member").elected);
    cluster.propose(put("k", "kept")).expect("leader");
    assert_eq!(cluster.create_leader_snapshot(), Ok(Some(1)));
    cluster.propose(put("m", "kept too")).expect("leader");
    cluster.reconnect(1).expect("member");
    let (leader, late) = (cluster.node(2).expect("leader"), cluster.node(1).expect("member"));
    assert_eq!(late.commit_index(), 2);
    assert_eq!(late.snapshot(), leader.snapshot());
    assert_eq!(late.get("k"), Some("kept"));
    assert_eq!(late.entries_from(2), leader.entries_from(2));
}

#[test]
fn a_leader_behind_the_versions_is_read_as_it_is() {
    let mut api = ApiService::new(RaftCluster::new(vec![1, 2, 3]).expect("builds"));
    write(&mut api, 1, put("a", "1"));
    let alone = |api: &mut ApiService| {
        api.cluster_mut().disconnect(2).expect("member");
        api.cluster_mut().disconnect(3).expect("member");
    };
    alone(&mut api);
    ask(&mut api, 1, Some(0), ClientRequest::Write(put("b", "2")));
    api.cluster_mut().reconnect(2).expect("member");
    api.cluster_mut().reconnect(3).expect("member");
    alone(&mut api);
    ask(&mut api, 1, Some(0), ClientRequest::Write(put("c", "3")));
    assert_eq!(api.cluster().node(1).expect("member").commit_index(), 2);
    assert_eq!(
        read(&mut api, 1, "b", ReadConsistency::Eventual),
        Some("2".to_owned())
    );
    api.cluster_mut().disconnect(1).expect("member");
    api.cluster_mut().reconnect(2).expect("member");
    api.cluster_mut().reconnect(3).expect("member");
    assert!(api.cluster_mut().start_election(2).expect("member").elected);
    assert_eq!(api.cluster().node(2).expect("member").commit_index(), 1);
    assert_eq!(
        read(&mut api, 2, "a", ReadConsistency::Linearizable),
        Some("1".to_owned())
    );
    write(&mut api, 2, put("d", "4"));
    assert_eq!(
        read(&mut api, 2, "b", ReadConsistency::Linearizable),
        Some("2".to_owned())
    );
}

#[test]
fn a_write_that_commits_at_once_needs_no_time() {
    let mut api = ApiService::new(RaftCluster::new(vec![1, 2, 3]).expect("builds"));
    let response = ask(&mut api, 1, Some(u64::MAX), ClientRequest::Write(put("k", "v")));
    assert!(matches!(response, ClientResponse::WriteCommitted { index: 1, .. }));
    let response = ask(
        &mut api,
        1,
        Some(u64::MAX),
        ClientRequest::Read {
            key: "k".to_owned(),
            consistency: ReadConsistency::Linearizable,
        },
    );
    assert_eq!(
        response,
        ClientResponse::ReadResult {
            value: Some("v".to_owned()),
            consistency: ReadConsistency::Linearizable
        }
    );
    assert_eq!(api.cluster().clock_ticks(), 0);
}

#[test]
fn no_member_compacts_or_commits_beyond_its_log() {
    let mut cluster = RaftCluster::new(vec![1, 2, 3]).expect("builds");
    cluster.disconnect(3).expect("member");
    cluster.propose(put("a", "1")).expect("leader");
    cluster.create_leader_snapshot().expect("leader");
    cluster.disconnect(1).expect("member");
    cluster.reconnect(3).expect("member");
    cluster.tick_many(40).expect("time passes");
    cluster.reconnect(1).expect("member");
    for node in &cluster.nodes {
        assert!(node.log_base_index() <= node.commit_index());
        assert!(node.commit_index() <= node.last_index());
    }
}

#[test]
fn empty_chunks_change_nothing() {
    let envelope = |api: &ApiService| RequestEnvelope {
        request_id: 3,
        from: client(),
        to: api.leader_address(),
        timeout_ticks: None,
        request: ClientRequest::Write(put("k", "v")),
    };
    let service = || ApiService::new(RaftCluster::new(vec![1, 2, 3]).expect("builds"));
    let payload = GrpcWireCodec::encode_request(&envelope(&service())).expect("encodes");
    let mut whole = GrpcWireServer::new(service());
    let mut cut = GrpcWireServer::new(service());
    let first = whole
        .handle_unary_bytes(DEFAULT_GRPC_METHOD_PATH, &payload)
        .expect("served");
    let chunks = vec![
        Vec::new(),
        payload[..5].to_vec(),
        Vec::new(),
        payload[5..].to_vec(),
        Vec::new(),
    ];
    let second = cut
        .handle_unary_chunked_bytes(DEFAULT_GRPC_METHOD_PATH, &chunks)
        .expect("served");
    assert_eq!(first, second);
    assert_eq!(
        whole.service().cluster().leader_snapshot(),
        cut.service().cluster().leader_snapshot()
    );
}

#[test]
fn quoted_keys_and_values_are_inserted_as_they_are() {
    for (key, value) in [
        ("planet", "saturn"),
        ("it's", "''"),
        ("", ";"),
        ("a, b) VALUES ('", "drop; -- \n\t"),
        ("caf\u{e9}", "\u{2603} snow"),
    ] {
        let query = format!(
            "INSERT INTO kv (key, value) VALUES ('{}', '{}')",
            key.replace('\'', "''"),
            value.replace('\'', "''")
        );
        assert_eq!(
            parse_statement(&query),
            Ok(SqlStatement::Insert {
                table: TableName::Kv,
                key: key.to_owned(),
                value: value.to_owned(),
            })
        );
    }
}

#[test]
fn one_semicolon_closes_a_statement_and_nothing_follows() {
    for query in [
        "SELECT * FROM kv",
        "select key from kv where value != 'x;'",
        "DELETE FROM kv WHERE key = 'a'",
    ] {
        let parsed = parse_statement(query);
        assert!(parsed.is_ok());
        assert_eq!(parse_statement(&format!("{query};")), parsed);
        assert_eq!(parse_statement(&format!("{query} ; \n")), parsed);
        assert!(parse_statement(&format!("{query};;")).is_err());
        assert!(parse_statement(&format!("{query}; extra")).is_err());
        assert!(parse_statement(&format!("{query} extra")).is_err());
    }
}

#[test]
fn members_come_back_after_elections_and_partitions() {
    let ids = vec![1, 2, 3];
    let mut cluster = RaftCluster::new_durable(ids.clone(), blank_files(&ids)).expect("builds");
    cluster.propose(put("a", "1")).expect("leader");
    cluster.disconnect(2).expect("member");
    cluster.disconnect(3).expect("member");
    cluster.propose(put("a", "lost")).expect("leader");
    cluster.disconnect(1).expect("member");
    cluster.reconnect(2).expect("member");
    cluster.reconnect(3).expect("member");
    assert!(cluster.start_election(2).expect("member").elected);
    cluster.propose(put("b", "2")).expect("leader");
    cluster.create_leader_snapshot().expect("leader");
    cluster.propose(put("c", "3")).expect("leader");
    let mut order = vec![3, 1, 2];
    let files: Vec<Wal> = order
        .iter()
        .map(|id| cluster.node(*id).expect("member").wal.clone().expect("durable"))
        .collect();
    let mut again = RaftCluster::new_durable(order.clone(), files).expect("recovers");
    for old in &cluster.nodes {
        let new = again.node(old.id()).expect("member");
        assert_eq!(old.entries_from(1), new.entries_from(1));
        assert_eq!(old.last_index(), new.last_index());
        assert_eq!(old.commit_index(), new.commit_index());
        assert_eq!(old.snapshot(), new.snapshot());
        assert_eq!(old.get("a"), new.get("a"));
        assert_eq!(old.get("c"), new.get("c"));
        assert!(new.current_term() >= old.current_term());
    }
    // Everybody ends up with what was committed.
    assert_eq!(again.node(again.leader_id()).expect("leader").last_index(), 3);
    again.propose(put("d", "4")).expect("leader");
    again.heartbeat_round().expect("leader");
    for id in order.drain(..) {
        let node = again.node(id).expect("member");
        assert_eq!(node.commit_index(), 4);
        assert_eq!(node.get("a"), Some("1"));
        assert_eq!(node.get("b"), Some("2"));
        assert_eq!(node.get("d"), Some("4"));
    }
}

#[test]
fn followers_with_other_logs_commit_with_the_leader() {
    let mut cluster = RaftCluster::new(vec![1, 2, 3]).expect("builds");
    cluster.propose(put("a", "1")).expect("leader");
    cluster.disconnect(2).expect("member");
    cluster.disconnect(3).expect("member");
    cluster.propose(put("b", "lost")).expect("leader");
    cluster.propose(put("c", "lost")).expect("leader");
    cluster.disconnect(1).expect("member");
    cluster.reconnect(2).expect("member");
    cluster.reconnect(3).expect("member");
    assert!(cluster.start_election(3).expect("member").elected);
    cluster.disconnect(2).expect("member");
    cluster.reconnect(1).expect("member");
    let outcome = cluster.propose(put("d", "4")).expect("leader");
    assert_eq!(outcome.index, 2);
    assert_eq!(outcome.committed_nodes, 2);
    for id in [1, 3] {
        let node = cluster.node(id).expect("member");
        assert_eq!(node.commit_index(), 2);
        assert_eq!(node.last_index(), 2);
        assert_eq!(node.get("b"), None);
        assert_eq!(node.get("d"), Some("4"));
    }
    cluster.reconnect(2).expect("member");
    cluster.heartbeat_round().expect("leader");
    let late = cluster.node(2).expect("member");
    assert_eq!(late.commit_index(), 2);
    assert_eq!(late.snapshot(), cluster.node(3).expect("leader").snapshot());
}

#[test]
fn acknowledged_writes_are_read_at_every_later_leader() {
    let mut api = ApiService::new(RaftCluster::new(vec![1, 2, 3, 4, 5]).expect("builds"));
    api.cluster_mut().disconnect(5).expect("member");
    let written = write(&mut api, 1, put("k", "v"));
    assert!(matches!(written, ClientResponse::WriteCommitted { index: 1, .. }));
    api.cluster_mut().disconnect(1).expect("member");
    api.cluster_mut().reconnect(5).expect("member");
    assert!(!api.cluster_mut().start_election(5).expect("member").elected);
    for leader in [2, 3, 4] {
        let mut elected = false;
        for _ in 0..3 {
            elected = elected || api.cluster_mut().start_election(leader).expect("member").elected;
        }
        assert!(elected);
        assert!(api.cluster().node(leader).expect("member").commit_index() >= 1);
        assert_eq!(
            read(&mut api, leader, "k", ReadConsistency::Linearizable),
            Some("v".to_owned())
        );
    }
    assert!(api.cluster_mut().start_election(5).expect("member").elected);
    assert_eq!(
        read(&mut api, 5, "k", ReadConsistency::Linearizable),
        Some("v".to_owned())
    );
}

#[test]
fn a_leader_restarts_beside_a_later_log() {
    let ids = vec![1, 2, 3];
    let mut cluster = RaftCluster::new_durable(ids.clone(), blank_files(&ids)).expect("builds");
    cluster.propose(put("a", "1")).expect("leader");
    cluster.disconnect(2).expect("member");
    cluster.disconnect(3).expect("member");
    cluster.propose(put("b", "2")).expect("leader");
    cluster.propose(put("c", "3")).expect("leader");
    cluster.disconnect(1).expect("member");
    cluster.reconnect(2).expect("member");
    cluster.reconnect(3).expect("member");
    assert!(cluster.start_election(2).expect("member").elected);
    cluster.disconnect(3).expect("member");
    cluster.propose(put("d", "4")).expect("leader");

    let mut again = RaftCluster::new_durable(ids.clone(), files_of(&cluster)).expect("recovers");
    assert_eq!(again.leader_id(), 1);
    assert_eq!(again.current_term(), 2);
    for (old, new) in cluster.nodes.iter().zip(again.nodes.iter()) {
        assert_eq!(old.commit_index(), new.commit_index());
        assert_eq!(old.entries_from(1), new.entries_from(1));
        assert_eq!(old.snapshot(), new.snapshot());
    }

    let outcome = again.propose(put("e", "5")).expect("leader");
    assert_eq!((outcome.index, outcome.committed_nodes), (4, 3));
    for node in &again.nodes {
        assert_eq!(node.commit_index(), 4);
        assert_eq!(node.get("b"), Some("2"));
        assert_eq!(node.get("c"), Some("3"));
        assert_eq!(node.get("d"), None);
        assert_eq!(node.get("e"), Some("5"));
        assert_eq!(node.entries_from(1), again.nodes[0].entries_from(1));
    }

    let mut third = RaftCluster::new_durable(vec![3, 2, 1], {
        let mut files = files_of(&again);
        files.reverse();
        files
    })
    .expect("recovers");
    third.disconnect(1).expect("member");
    assert!(third.start_election(2).expect("member").elected);
    let outcome = third.propose(delete("a")).expect("leader");
    assert_eq!((outcome.index, outcome.committed_nodes), (5, 2));
    third.reconnect(1).expect("member");
    for node in &third.nodes {
        assert_eq!(node.commit_index(), 5);
        assert_eq!(node.get("a"), None);
        assert_eq!(node.get("e"), Some("5"));
    }
}

#[test]
fn a_restart_does_not_write_in_a_term_twice() {
    let ids = vec![1, 2, 3, 4, 5];
    let mut cluster = RaftCluster::new_durable(ids.clone(), blank_files(&ids)).expect("builds");
    for id in [2, 3, 4, 5] {
        cluster.disconnect(id).expect("member");
    }
    cluster.propose(put("a", "1")).expect("leader");
    cluster.propose(put("b", "2")).expect("leader");
    for id in [2, 3] {
        cluster.reconnect(id).expect("member");
    }
    for id in [2, 3] {
        cluster.disconnect(id).expect("member");
    }
    cluster.propose(put("c", "lost")).expect("leader");
    assert_eq!(cluster.node(1).expect("member").commit_index(), 2);
    cluster.disconnect(1).expect("member");
    for id in [2, 3, 4] {
        cluster.reconnect(id).expect("member");
    }
    assert!(cluster.start_election(2).expect("member").elected);
    for id in [3, 4] {
        cluster.disconnect(id).expect("member");
    }
    cluster.propose(put("d", "3")).expect("leader");
    cluster.reconnect(1).expect("member");
    cluster.disconnect(1).expect("member");
    cluster.propose(put("e", "lost")).expect("leader");
    assert_eq!(cluster.node(1).expect("member").last_index(), 3);
    assert_eq!(cluster.node(2).expect("member").last_index(), 4);
    assert_eq!(cluster.node(2).expect("member").last_term(), 2);

    let mut again = RaftCluster::new_durable(ids, files_of(&cluster)).expect("recovers");
    assert_eq!(again.leader_id(), 1);
    assert_eq!(again.current_term(), 3);
    for node in &again.nodes {
        assert_eq!(node.current_term(), 3);
        let files = node.wal.as_ref().expect("durable");
        assert_eq!(files.load_raft_meta().expect("loads").current_term, 3);
    }
    let outcome = again.propose(put("f", "4")).expect("leader");
    assert_eq!((outcome.index, outcome.committed_nodes), (4, 5));
    for node in &again.nodes {
        assert_eq!(node.commit_index(), 4);
        assert_eq!(node.term_at(4), Some(3));
        assert_eq!(node.get("a"), Some("1"));
        assert_eq!(node.get("b"), Some("2"));
        assert_eq!(node.get("c"), None);
        assert_eq!(node.get("d"), Some("3"));
        assert_eq!(node.get("e"), None);
        assert_eq!(node.get("f"), Some("4"));
    }
}

#[test]
fn files_cut_short_or_lengthened_are_refused() {
    let entries = vec![entry(1, 1, put("a", "1")), entry(1, 2, delete("a"))];
    let log = encode_log(&entries).expect("encodes");
    let mut first: Vec<u8> = Vec::new();
    encode_entry(&entries[0], &mut first).expect("encodes");
    for n in 0..log.len() {
        let loaded = decode_entries(&log[..n]);
        if n == 0 {
            assert_eq!(loaded, Ok(Vec::new()));
        } else if n == first.len() {
            assert_eq!(loaded, Ok(entries[..1].to_vec()));
        } else {
            assert!(loaded.is_err());
        }
    }
    let mut state: OrderedMap<String> = OrderedMap::new();
    state.insert("k".to_owned(), "v".to_owned());
    let snapshot = SnapshotData {
        last_included_index: 7,
        last_included_term: 2,
        state,
    };
    let file = encode_snapshot(&snapshot).expect("encodes");
    for n in 1..file.len() {
        assert!(decode_snapshot(&file[..n]).is_err());
    }
    assert!(matches!(decode_snapshot(&file), Ok(Some(_))));
    let mut longer = file.clone();
    longer.push(0);
    assert!(decode_snapshot(&longer).is_err());
}

fn rows_at(api: &mut ApiService, to: NodeId) -> Vec<Vec<String>> {
    let response = ask(
        api,
        to,
        None,
        ClientRequest::Sql {
            query: "SELECT key, value FROM kv".to_owned(),
            read_consistency: ReadConsistency::Eventual,
        },
    );
    match response {
        ClientResponse::SqlRows { rows, .. } => rows,
        other => panic!("unexpected response {other:?}"),
    }
}

fn row(key: &str, value: &str) -> Vec<String> {
    vec![key.to_owned(), value.to_owned()]
}

#[test]
fn a_member_that_fell_behind_is_read_as_it_is() {
    let mut api = ApiService::new(RaftCluster::new(vec![1, 2, 3]).expect("builds"));
    write(&mut api, 1, put("k", "old"));
    api.cluster_mut().disconnect(3).expect("member");
    api.cluster_mut().propose(put("k", "new")).expect("leader");
    api.cluster_mut().propose(put("l", "more")).expect("leader");
    for _ in 0..2 {
        assert_eq!(
            read(&mut api, 1, "k", ReadConsistency::Linearizable),
            Some("new".to_owned())
        );
        assert_eq!(
            read(&mut api, 3, "k", ReadConsistency::Eventual),
            Some("old".to_owned())
        );
        assert_eq!(read(&mut api, 3, "l", ReadConsistency::Eventual), None);
        assert_eq!(rows_at(&mut api, 1), vec![row("k", "new"), row("l", "more")]);
        assert_eq!(rows_at(&mut api, 3), vec![row("k", "old")]);
    }
    api.cluster_mut().reconnect(3).expect("member");
    assert_eq!(api.cluster().node(3).expect("member").commit_index(), 3);
    assert_eq!(rows_at(&mut api, 3), vec![row("k", "new"), row("l", "more")]);
}

#[test]
fn a_member_behind_from_the_start_is_read_as_it_is() {
    let mut cluster = RaftCluster::new(vec![1, 2, 3]).expect("builds");
    cluster.propose(put("k", "old")).expect("leader");
    cluster.disconnect(3).expect("member");
    cluster.propose(put("k", "new")).expect("leader");
    let mut api = ApiService::new(cluster);
    assert_eq!(
        read(&mut api, 3, "k", ReadConsistency::Eventual),
        Some("old".to_owned())
    );
    write(&mut api, 1, put("l", "more"));
    assert_eq!(rows_at(&mut api, 3), vec![row("k", "old")]);
    assert_eq!(rows_at(&mut api, 1), vec![row("k", "new"), row("l", "more")]);
}

#[test]
fn earlier_commits_are_read_out_of_the_same_versions() {
    let mut api = ApiService::new(RaftCluster::new(vec![1, 2, 3]).expect("builds"));
    write(&mut api, 1, put("k", "1"));
    api.cluster_mut().disconnect(3).expect("member");
    write(&mut api, 1, put("k", "2"));
    write(&mut api, 1, delete("k"));
    assert_eq!(
        read(&mut api, 3, "k", ReadConsistency::Eventual),
        Some("1".to_owned())
    );
    assert_eq!(read(&mut api, 1, "k", ReadConsistency::Eventual), None);
    assert_eq!((api.mvcc_first_index, api.mvcc_last_applied_index), (0, 3));
}

#[test]
fn later_reads_of_a_member_go_on_in_the_same_log() {
    let mut api = ApiService::new(RaftCluster::new(vec![1, 2, 3]).expect("builds"));
    let value = |value: &str| Some(value.to_owned());
    write(&mut api, 1, put("k", "1"));
    assert_eq!(read(&mut api, 3, "k", ReadConsistency::Eventual), value("1"));
    api.cluster_mut().disconnect(3).expect("member");
    write(&mut api, 1, put("k", "2"));
    assert_eq!(read(&mut api, 1, "k", ReadConsistency::Linearizable), value("2"));
    assert_eq!(read(&mut api, 3, "k", ReadConsistency::Eventual), value("1"));
    api.cluster_mut().reconnect(3).expect("member");
    assert_eq!(read(&mut api, 3, "k", ReadConsistency::Eventual), value("2"));
    assert!(api.cluster_mut().start_election(2).expect("member").elected);
    let leader = api.cluster().node(2).expect("member");
    assert_eq!(leader.commit_index(), leader.last_index());
    assert_eq!(read(&mut api, 2, "k", ReadConsistency::Linearizable), value("2"));
}
