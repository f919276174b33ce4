use anvildb::api_types::{
    ClientRequest, ClientResponse, NodeAddress, ReadConsistency, RequestEnvelope, ResponseEnvelope,
    TimeoutOperation, TransportConfig,
};
use anvildb::ordered::OrderedMap;
use anvildb::raft_cluster::RaftCluster;
use anvildb::raft_node::Role;
use anvildb::snapshot_codec::{decode_commit_index, decode_meta, decode_snapshot};
use anvildb::sql_parser::parse_statement;
use anvildb::text::{decimal_text, text_equal_ignoring_case, text_less};
use anvildb::types::{Command, DbError, DbResult};
use anvildb::wal::Wal;
use anvildb::wal_codec::{decode_entries, validate_entry_sequence};
use anvildb::wire_codec::GrpcWireCodec;
use anvildb::wire_fields::GrpcCodecError;

fn refusal(query: &str) -> String {
    parse_statement(query).expect_err("refused").to_string()
}

fn corrupt<T: std::fmt::Debug>(result: DbResult<T>) -> String {
    match result {
        Err(DbError::CorruptWal(message)) => message,
        other => panic!("unexpected result {other:?}"),
    }
}

fn address(node_id: u64) -> NodeAddress {
    NodeAddress::new(node_id, format!("node-{node_id}.anvildb.internal"))
}

fn request(request: ClientRequest) -> RequestEnvelope {
    RequestEnvelope {
        request_id: 1,
        from: address(9),
        to: address(1),
        timeout_ticks: None,
        request,
    }
}

fn response(response: ClientResponse) -> ResponseEnvelope {
    ResponseEnvelope {
        request_id: 1,
        from: address(1),
        to: address(9),
        response,
    }
}

#[test]
fn errors_say_what_they_are() {
    assert_eq!(DbError::NodeNotFound(4).to_string(), "node 4 not found");
    assert_eq!(
        DbError::LeaderMissing(4).to_string(),
        "leader 4 missing from cluster"
    );
    assert_eq!(
        DbError::MissingLogEntry(10).to_string(),
        "log entry with index 10 not found"
    );
    assert_eq!(
        DbError::ClusterTooSmall.to_string(),
        "invalid cluster: at least 3 nodes required"
    );
    assert_eq!(
        DbError::DuplicateNode(2).to_string(),
        "invalid cluster: duplicate node id 2"
    );
    assert_eq!(
        DbError::Io("disk".to_owned()).to_string(),
        "io error: disk"
    );
    assert_eq!(
        DbError::CorruptWal("bits".to_owned()).to_string(),
        "corrupt wal: bits"
    );
    assert_eq!(
        GrpcCodecError::InvalidPayload("x".to_owned()).to_string(),
        "invalid gRPC payload: x"
    );
    assert_eq!(
        GrpcCodecError::UnsupportedMethodPath("/p".to_owned()).to_string(),
        "unsupported gRPC method path: /p"
    );
}

#[test]
fn numbers_are_written_in_decimal() {
    assert_eq!(decimal_text(0), "0");
    assert_eq!(decimal_text(907), "907");
    assert_eq!(decimal_text(u64::MAX as u128), "18446744073709551615");
}

#[test]
fn texts_compare_by_code_point() {
    assert!(text_less("a", "b"));
    assert!(text_less("a", "aa"));
    assert!(!text_less("a", "a"));
    assert!(text_less("Z", "a"));
    assert!(text_less("z", "\u{e9}"));
    assert!(text_equal_ignoring_case("SeLeCt", "select"));
    assert!(!text_equal_ignoring_case("\u{c9}", "\u{e9}"));
}

#[test]
fn clusters_need_three_different_ids() {
    assert_eq!(
        RaftCluster::new(vec![1]).map(|_| ()),
        Err(DbError::ClusterTooSmall)
    );
    assert_eq!(
        RaftCluster::new(vec![1, 2, 3, 2]).map(|_| ()),
        Err(DbError::DuplicateNode(2))
    );
    let mut cluster = RaftCluster::new(vec![1, 2, 3]).expect("builds");
    assert_eq!(cluster.node(9).map(|_| ()), Err(DbError::NodeNotFound(9)));
    assert_eq!(cluster.disconnect(9), Err(DbError::NodeNotFound(9)));
    assert_eq!(cluster.reconnect(9), Err(DbError::NodeNotFound(9)));
    assert_eq!(
        cluster.is_connected_to_leader(9),
        Err(DbError::NodeNotFound(9))
    );
    assert_eq!(
        cluster.start_election(9).map(|_| ()),
        Err(DbError::NodeNotFound(9))
    );
}

#[test]
fn a_leader_that_stepped_down_takes_nothing() {
    let mut cluster = RaftCluster::new(vec![1, 2, 3]).expect("builds");
    cluster.nodes[0].become_follower(3);
    assert_eq!(cluster.nodes[0].role(), Role::Follower);
    assert_eq!(
        cluster
            .propose(Command::Delete {
                key: "k".to_owned()
            })
            .map(|_| ()),
        Err(DbError::LeaderMissing(1))
    );
    assert_eq!(
        cluster.heartbeat_round().map(|_| ()),
        Err(DbError::LeaderMissing(1))
    );
}

#[test]
fn nothing_committed_makes_no_snapshot() {
    let mut cluster = RaftCluster::new(vec![1, 2, 3]).expect("builds");
    assert_eq!(cluster.create_leader_snapshot(), Ok(None));
    assert_eq!(cluster.leader_snapshot(), Ok(OrderedMap::new()));
}

#[test]
fn statements_are_refused_with_reasons() {
    assert_eq!(refusal(""), "sql error: empty SQL statement");
    assert_eq!(
        refusal("SELECT key FROM kv extra"),
        "sql error: unexpected tokens after end of statement"
    );
    assert_eq!(
        refusal("SELECT key kv"),
        "sql error: expected keyword FROM, found kv"
    );
    assert_eq!(
        refusal("SELECT key = kv"),
        "sql error: expected keyword FROM"
    );
    assert_eq!(
        refusal("DELETE FROM kv WHERE key key"),
        "sql error: expected comparison operator '=' or '!=', found Some(Word(\"key\"))"
    );
    assert_eq!(
        refusal("INSERT INTO kv (key, value) VALUES ('a' 'b\t')"),
        "sql error: expected token RParen, found Some(StringLiteral(\"b\\t\"))"
    );
    assert_eq!(
        refusal("INSERT INTO kv (key) VALUES ('a')"),
        "sql error: INSERT missing value column value"
    );
    assert_eq!(
        refusal("INSERT INTO kv (value) VALUES ('a')"),
        "sql error: INSERT missing key column value"
    );
    assert_eq!(
        refusal("INSERT INTO kv (key, key) VALUES ('a', 'b')"),
        "sql error: INSERT specifies duplicate key column"
    );
    assert_eq!(
        refusal("INSERT INTO kv (value, value) VALUES ('a', 'b')"),
        "sql error: INSERT specifies duplicate value column"
    );
    assert_eq!(
        refusal("INSERT INTO kv (key, value) VALUES ('a')"),
        "sql error: INSERT column count does not match VALUES count"
    );
    assert_eq!(
        refusal("UPDATE kv SET value = 'a', key = 'b' WHERE key = 'c'"),
        "sql error: multiple UPDATE assignments are not supported yet"
    );
    assert_eq!(
        refusal("DELETE FROM kv WHERE key < 'a'"),
        "sql error: unexpected character '<'"
    );
    assert_eq!(
        refusal("DELETE FROM kv WHERE key ! 'a'"),
        "sql error: unexpected '!' (expected '!=')"
    );
    assert_eq!(
        refusal("DELETE FROM kv WHERE key = 'a"),
        "sql error: unterminated single-quoted literal"
    );
    assert_eq!(
        refusal("DELETE FROM kv WHERE age = 'a'"),
        "sql error: unsupported column 'age' (expected key or value)"
    );
    assert_eq!(
        refusal("DELETE FROM kv WHERE key = a"),
        "sql error: expected single-quoted literal"
    );
    assert_eq!(
        refusal("DELETE FROM kv WHERE key 'a'"),
        "sql error: expected comparison operator '=' or '!=', found Some(StringLiteral(\"a\"))"
    );
}

#[test]
fn broken_records_are_refused_with_reasons() {
    assert_eq!(corrupt(decode_entries(&[1, 2])), "truncated WAL entry header");
    let mut record = vec![0; 25];
    record[0] = 9;
    assert_eq!(corrupt(decode_entries(&record)), "unknown WAL opcode 9");
    record[0] = 1;
    record[17] = 4;
    assert_eq!(corrupt(decode_entries(&record)), "truncated WAL payload");
    record.extend_from_slice(&[0xFF, 0xFE, 0, 0]);
    assert_eq!(corrupt(decode_entries(&record)), "invalid UTF-8 key in WAL");
    let mut value = vec![0; 25];
    value[0] = 1;
    value[21] = 1;
    value.push(0xC0);
    assert_eq!(corrupt(decode_entries(&value)), "invalid UTF-8 value in WAL");
    value[0] = 2;
    value[25] = b'v';
    assert_eq!(
        corrupt(decode_entries(&value)),
        "delete record must not carry a value payload"
    );
    let zero = decode_entries(&{
        let mut bytes = vec![0; 25];
        bytes[0] = 2;
        bytes
    })
    .expect("decodes");
    assert_eq!(
        corrupt(validate_entry_sequence(&zero)),
        "non-contiguous index sequence: index 0 is invalid"
    );
}

#[test]
fn broken_metadata_is_refused_with_reasons() {
    assert_eq!(decode_commit_index(&[]), Ok(0));
    assert_eq!(
        corrupt(decode_commit_index(&[1, 2, 3])),
        "commit-index metadata has invalid length 3, expected 8"
    );
    assert_eq!(
        corrupt(decode_meta(&[0; 4])),
        "raft metadata has invalid length 4, expected 17"
    );
    let mut meta = [0; 17];
    meta[8] = 7;
    assert_eq!(
        corrupt(decode_meta(&meta)),
        "raft vote metadata has invalid presence flag 7"
    );
    assert_eq!(corrupt(decode_snapshot(&[1])), "truncated snapshot header");
    assert_eq!(
        corrupt(decode_snapshot(&[0; 21])),
        "snapshot contains trailing bytes"
    );
    let mut one = vec![0; 20];
    one[16] = 1;
    assert_eq!(
        corrupt(decode_snapshot(&one)),
        "truncated snapshot key/value header"
    );
    one.extend_from_slice(&[1, 0, 0, 0, 0, 0, 0, 0]);
    assert_eq!(corrupt(decode_snapshot(&one)), "truncated snapshot payload");
    one.push(0xFF);
    assert_eq!(
        corrupt(decode_snapshot(&one)),
        "invalid UTF-8 key in snapshot"
    );
}

#[test]
fn an_open_log_is_blank() {
    let wal = Wal::open("dir/node-1.wal".to_owned()).expect("opens");
    assert_eq!(wal.path(), "dir/node-1.wal");
    assert_eq!(wal.load(), Ok(Vec::new()));
    assert_eq!(wal.load_commit_index(), Ok(0));
    assert_eq!(wal.load_snapshot(), Ok(None));
}

#[test]
fn every_request_travels() {
    let requests = [
        ClientRequest::Write(Command::Put {
            key: "k\u{20ac}".to_owned(),
            value: String::new(),
        }),
        ClientRequest::Write(Command::Delete {
            key: "k".to_owned(),
        }),
        ClientRequest::Read {
            key: "k".to_owned(),
            consistency: ReadConsistency::Linearizable,
        },
        ClientRequest::Sql {
            query: "SELECT * FROM kv".to_owned(),
            read_consistency: ReadConsistency::Eventual,
        },
    ];
    for each in requests {
        let envelope = request(each);
        let bytes = GrpcWireCodec::encode_request(&envelope).expect("encodes");
        assert_eq!(GrpcWireCodec::decode_request(&bytes), Ok(envelope));
    }
}

#[test]
fn every_response_travels() {
    let responses = [
        ClientResponse::WriteCommitted {
            index: 3,
            committed_nodes: 2,
        },
        ClientResponse::ReadResult {
            value: None,
            consistency: ReadConsistency::Eventual,
        },
        ClientResponse::Redirect { leader: address(2) },
        ClientResponse::TimedOut {
            operation: TimeoutOperation::LinearizableRead,
            index: None,
            observed_nodes: 1,
        },
        ClientResponse::TimedOut {
            operation: TimeoutOperation::Proposal,
            index: Some(9),
            observed_nodes: 0,
        },
        ClientResponse::Overloaded {
            pending_entries: 5,
            limit: 5,
        },
        ClientResponse::RouteError {
            message: "r".to_owned(),
        },
        ClientResponse::InvalidQuery {
            message: "q".to_owned(),
        },
        ClientResponse::SqlRows {
            columns: vec!["key".to_owned()],
            rows: vec![vec!["a".to_owned()], Vec::new()],
            consistency: ReadConsistency::Linearizable,
        },
        ClientResponse::SqlWriteResult {
            affected_rows: 2,
            last_index: Some(4),
            committed_nodes: 3,
        },
        ClientResponse::InternalError {
            message: "i".to_owned(),
        },
    ];
    for each in responses {
        let envelope = response(each);
        let bytes = GrpcWireCodec::encode_response(&envelope).expect("encodes");
        let back = GrpcWireCodec::decode_response(&bytes).expect("decodes");
        assert_eq!(back, envelope);
        assert_eq!(back.clone(), envelope);
    }
}

#[test]
fn a_request_has_its_exact_bytes() {
    let envelope = RequestEnvelope {
        request_id: 2,
        from: NodeAddress::new(3, "f".to_owned()),
        to: NodeAddress::new(1, String::new()),
        timeout_ticks: Some(4),
        request: ClientRequest::Write(Command::Delete {
            key: "k".to_owned(),
        }),
    };
    let le = |n: u8| [n, 0, 0, 0, 0, 0, 0, 0];
    let mut expected = Vec::new();
    expected.extend_from_slice(&le(2));
    expected.extend_from_slice(&le(3));
    expected.extend_from_slice(&le(1));
    expected.push(b'f');
    expected.extend_from_slice(&le(1));
    expected.extend_from_slice(&le(0));
    expected.push(1);
    expected.extend_from_slice(&le(4));
    let bytes = GrpcWireCodec::encode_request(&envelope).expect("encodes");
    assert_eq!(bytes[..expected.len()], expected[..]);
}

#[test]
fn payloads_that_are_not_text_are_refused() {
    let envelope = request(ClientRequest::Read {
        key: "k".to_owned(),
        consistency: ReadConsistency::Eventual,
    });
    let mut bytes = GrpcWireCodec::encode_request(&envelope).expect("encodes");
    bytes[24] = 0xFF;
    let error = GrpcWireCodec::decode_request(&bytes).expect_err("refused");
    assert_eq!(
        error.to_string(),
        "invalid gRPC payload: field node_address.endpoint is not utf8: \
         invalid utf-8 sequence of 1 bytes from index 0"
    );
    let short = GrpcWireCodec::decode_request(&[1, 2]).expect_err("refused");
    assert_eq!(
        short.to_string(),
        "invalid gRPC payload: field request.request_id expected 8 bytes but 2 remain"
    );
}

#[test]
fn defaults_are_as_documented() {
    assert_eq!(
        TransportConfig::default(),
        TransportConfig {
            proposal_timeout_ticks: 8,
            read_timeout_ticks: 4,
            read_lease_ticks: 3,
            max_pending_entries: 64,
        }
    );
}
