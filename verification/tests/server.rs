use anvildb::api_model::ReadLease;
use anvildb::api_service::ApiService;
use anvildb::api_types::{
    ClientRequest, ClientResponse, NodeAddress, ReadConsistency, RequestEnvelope, ResponseEnvelope,
    TimeoutOperation, TransportConfig,
};
use anvildb::raft_cluster::RaftCluster;
use anvildb::transport::{
    GrpcEnvelopeClient, GrpcTransportAdapter, GrpcWireClient, GrpcWireServer,
    GrpcWireTransportAdapter, Transport, TransportError, DEFAULT_GRPC_METHOD_PATH,
};
use anvildb::types::Command;
use anvildb::wire_codec::GrpcWireCodec;
use anvildb::wire_fields::GrpcCodecError;

fn client_address() -> NodeAddress {
    NodeAddress::new(9_001, "client://tester".to_owned())
}

fn request(
    request_id: u64,
    from: NodeAddress,
    to: NodeAddress,
    timeout_ticks: Option<u64>,
    request: ClientRequest,
) -> RequestEnvelope {
    RequestEnvelope {
        request_id,
        from,
        to,
        timeout_ticks,
        request,
    }
}

fn chunk_bytes(bytes: &[u8], chunk_size: usize) -> Vec<Vec<u8>> {
    let chunk_size = chunk_size.max(1);
    let mut chunks = Vec::new();
    let mut offset = 0usize;
    while offset < bytes.len() {
        let end = (offset + chunk_size).min(bytes.len());
        chunks.push(bytes[offset..end].to_vec());
        offset = end;
    }
    chunks
}

#[derive(Debug, Default)]
struct FakeGrpcClient {
    seen_paths: Vec<String>,
    seen_requests: Vec<RequestEnvelope>,
    scripted: Vec<Result<ResponseEnvelope, TransportError>>,
}

impl FakeGrpcClient {
    fn with_response(response: ResponseEnvelope) -> Self {
        Self {
            seen_paths: Vec::new(),
            seen_requests: Vec::new(),
            scripted: vec![Ok(response)],
        }
    }
}

impl GrpcEnvelopeClient for FakeGrpcClient {
    fn unary_call(
        &mut self,
        method_path: &str,
        request: &RequestEnvelope,
    ) -> Result<ResponseEnvelope, TransportError> {
        self.seen_paths.push(method_path.to_owned());
        self.seen_requests.push(request.clone());
        self.scripted.pop().unwrap_or_else(|| {
            Err(TransportError::Remote(
                "no scripted response available".to_owned(),
            ))
        })
    }
}

#[derive(Debug)]
struct LoopbackGrpcWireClient {
    server: GrpcWireServer,
    seen_paths: Vec<String>,
    seen_payload_sizes: Vec<usize>,
}

impl LoopbackGrpcWireClient {
    fn new(server: GrpcWireServer) -> Self {
        Self {
            server,
            seen_paths: Vec::new(),
            seen_payload_sizes: Vec::new(),
        }
    }
}

impl GrpcWireClient for LoopbackGrpcWireClient {
    fn unary_call_bytes(
        &mut self,
        method_path: &str,
        request_payload: &[u8],
    ) -> Result<Vec<u8>, TransportError> {
        self.seen_paths.push(method_path.to_owned());
        self.seen_payload_sizes.push(request_payload.len());
        self.server.handle_unary_bytes(method_path, request_payload)
    }
}

#[test]
fn write_to_follower_returns_leader_redirect() {
    let cluster = RaftCluster::new(vec![1, 2, 3]).expect("cluster should build");
    let mut api = ApiService::new(cluster);
    let follower = api.address_for(2).expect("follower address").clone();
    let leader = api.leader_address();

    let response = api.handle(request(
        1,
        client_address(),
        follower,
        None,
        ClientRequest::Write(Command::Put {
            key: "planet".to_owned(),
            value: "earth".to_owned(),
        }),
    ));

    assert_eq!(response.response, ClientResponse::Redirect { leader });
}

#[test]
fn unknown_destination_address_is_rejected() {
    let cluster = RaftCluster::new(vec![1, 2, 3]).expect("cluster should build");
    let mut api = ApiService::new(cluster);

    let response = api.handle(request(
        7,
        client_address(),
        NodeAddress::new(1, "node-1.bad.internal".to_owned()),
        None,
        ClientRequest::Read {
            key: "planet".to_owned(),
            consistency: ReadConsistency::Eventual,
        },
    ));

    assert!(matches!(
        response.response,
        ClientResponse::RouteError { .. }
    ));
}

#[test]
fn proposal_times_out_without_quorum() {
    let cluster = RaftCluster::new(vec![1, 2, 3, 4, 5]).expect("cluster should build");
    let mut api = ApiService::with_config(
        cluster,
        TransportConfig {
            proposal_timeout_ticks: 2,
            read_timeout_ticks: 2,
            read_lease_ticks: 3,
            max_pending_entries: 64,
        },
    );

    api.cluster_mut()
        .disconnect(3)
        .expect("disconnect should work");
    api.cluster_mut()
        .disconnect(4)
        .expect("disconnect should work");
    api.cluster_mut()
        .disconnect(5)
        .expect("disconnect should work");

    let leader = api.leader_address();

    let response = api.handle(request(
        11,
        client_address(),
        leader,
        Some(2),
        ClientRequest::Write(Command::Put {
            key: "x".to_owned(),
            value: "1".to_owned(),
        }),
    ));

    assert_eq!(
        response.response,
        ClientResponse::TimedOut {
            operation: TimeoutOperation::Proposal,
            index: Some(1),
            observed_nodes: 0,
        }
    );
}

#[test]
fn backpressure_rejects_when_pending_backlog_reaches_limit() {
    let cluster = RaftCluster::new(vec![1, 2, 3, 4, 5]).expect("cluster should build");
    let mut api = ApiService::with_config(
        cluster,
        TransportConfig {
            proposal_timeout_ticks: 1,
            read_timeout_ticks: 2,
            read_lease_ticks: 3,
            max_pending_entries: 1,
        },
    );

    api.cluster_mut()
        .disconnect(3)
        .expect("disconnect should work");
    api.cluster_mut()
        .disconnect(4)
        .expect("disconnect should work");
    api.cluster_mut()
        .disconnect(5)
        .expect("disconnect should work");

    let leader = api.leader_address();
    let client = client_address();

    let first = api.handle(request(
        21,
        client.clone(),
        leader.clone(),
        Some(1),
        ClientRequest::Write(Command::Put {
            key: "x".to_owned(),
            value: "1".to_owned(),
        }),
    ));
    assert!(matches!(
        first.response,
        ClientResponse::TimedOut {
            operation: TimeoutOperation::Proposal,
            index: Some(1),
            observed_nodes: 0
        }
    ));

    let second = api.handle(request(
        22,
        client,
        leader,
        Some(1),
        ClientRequest::Write(Command::Put {
            key: "y".to_owned(),
            value: "2".to_owned(),
        }),
    ));
    assert_eq!(
        second.response,
        ClientResponse::Overloaded {
            pending_entries: 1,
            limit: 1,
        }
    );
}

#[test]
fn linearizable_read_times_out_without_quorum_but_eventual_read_succeeds() {
    let cluster = RaftCluster::new(vec![1, 2, 3, 4, 5]).expect("cluster should build");
    let mut api = ApiService::with_config(
        cluster,
        TransportConfig {
            proposal_timeout_ticks: 2,
            read_timeout_ticks: 1,
            read_lease_ticks: 3,
            max_pending_entries: 64,
        },
    );

    let leader = api.leader_address();
    let client = client_address();

    let write = api.handle(request(
        31,
        client.clone(),
        leader.clone(),
        None,
        ClientRequest::Write(Command::Put {
            key: "planet".to_owned(),
            value: "saturn".to_owned(),
        }),
    ));
    assert!(matches!(
        write.response,
        ClientResponse::WriteCommitted { index: 1, .. }
    ));

    api.cluster_mut()
        .disconnect(3)
        .expect("disconnect should work");
    api.cluster_mut()
        .disconnect(4)
        .expect("disconnect should work");
    api.cluster_mut()
        .disconnect(5)
        .expect("disconnect should work");

    let linearizable = api.handle(request(
        32,
        client.clone(),
        leader.clone(),
        Some(1),
        ClientRequest::Read {
            key: "planet".to_owned(),
            consistency: ReadConsistency::Linearizable,
        },
    ));
    assert_eq!(
        linearizable.response,
        ClientResponse::TimedOut {
            operation: TimeoutOperation::LinearizableRead,
            index: None,
            observed_nodes: 2,
        }
    );

    let eventual = api.handle(request(
        33,
        client,
        leader,
        None,
        ClientRequest::Read {
            key: "planet".to_owned(),
            consistency: ReadConsistency::Eventual,
        },
    ));
    assert_eq!(
        eventual.response,
        ClientResponse::ReadResult {
            value: Some("saturn".to_owned()),
            consistency: ReadConsistency::Eventual,
        }
    );
}

#[test]
fn linearizable_read_lease_allows_temporary_quorum_loss_until_expiry() {
    let cluster = RaftCluster::new(vec![1, 2, 3, 4, 5]).expect("cluster should build");
    let mut api = ApiService::with_config(
        cluster,
        TransportConfig {
            proposal_timeout_ticks: 2,
            read_timeout_ticks: 0,
            read_lease_ticks: 3,
            max_pending_entries: 64,
        },
    );

    let leader = api.leader_address();
    let client = client_address();

    let write = api.handle(request(
        40,
        client.clone(),
        leader.clone(),
        None,
        ClientRequest::Write(Command::Put {
            key: "lease-key".to_owned(),
            value: "lease-value".to_owned(),
        }),
    ));
    assert!(matches!(
        write.response,
        ClientResponse::WriteCommitted { index: 1, .. }
    ));

    let acquire_lease = api.handle(request(
        41,
        client.clone(),
        leader.clone(),
        Some(0),
        ClientRequest::Read {
            key: "lease-key".to_owned(),
            consistency: ReadConsistency::Linearizable,
        },
    ));
    assert_eq!(
        acquire_lease.response,
        ClientResponse::ReadResult {
            value: Some("lease-value".to_owned()),
            consistency: ReadConsistency::Linearizable,
        }
    );

    api.cluster_mut()
        .disconnect(3)
        .expect("disconnect should work");
    api.cluster_mut()
        .disconnect(4)
        .expect("disconnect should work");
    api.cluster_mut()
        .disconnect(5)
        .expect("disconnect should work");

    let still_within_lease = api.handle(request(
        42,
        client.clone(),
        leader.clone(),
        Some(0),
        ClientRequest::Read {
            key: "lease-key".to_owned(),
            consistency: ReadConsistency::Linearizable,
        },
    ));
    assert_eq!(
        still_within_lease.response,
        ClientResponse::ReadResult {
            value: Some("lease-value".to_owned()),
            consistency: ReadConsistency::Linearizable,
        }
    );

    api.cluster_mut()
        .tick_many(4)
        .expect("ticks should advance lease clock");

    let after_expiry = api.handle(request(
        43,
        client,
        leader,
        Some(0),
        ClientRequest::Read {
            key: "lease-key".to_owned(),
            consistency: ReadConsistency::Linearizable,
        },
    ));
    assert_eq!(
        after_expiry.response,
        ClientResponse::TimedOut {
            operation: TimeoutOperation::LinearizableRead,
            index: None,
            observed_nodes: 2,
        }
    );
}

#[test]
fn linearizable_read_redirects_after_leadership_change_even_with_cached_lease() {
    let cluster = RaftCluster::new(vec![1, 2, 3]).expect("cluster should build");
    let mut api = ApiService::with_config(
        cluster,
        TransportConfig {
            proposal_timeout_ticks: 2,
            read_timeout_ticks: 0,
            read_lease_ticks: 5,
            max_pending_entries: 64,
        },
    );

    let old_leader = api.leader_address();
    let client = client_address();

    let write = api.handle(request(
        43,
        client.clone(),
        old_leader.clone(),
        None,
        ClientRequest::Write(Command::Put {
            key: "stale".to_owned(),
            value: "guard".to_owned(),
        }),
    ));
    assert!(matches!(
        write.response,
        ClientResponse::WriteCommitted { index: 1, .. }
    ));

    let lease_read = api.handle(request(
        44,
        client.clone(),
        old_leader.clone(),
        Some(0),
        ClientRequest::Read {
            key: "stale".to_owned(),
            consistency: ReadConsistency::Linearizable,
        },
    ));
    assert!(matches!(
        lease_read.response,
        ClientResponse::ReadResult {
            consistency: ReadConsistency::Linearizable,
            ..
        }
    ));

    let election = api
        .cluster_mut()
        .start_election(2)
        .expect("election should execute");
    assert!(election.elected, "node 2 should become leader");

    let new_leader = api.leader_address();
    assert_ne!(old_leader.node_id, new_leader.node_id);

    let stale_target_read = api.handle(request(
        45,
        client,
        old_leader,
        Some(0),
        ClientRequest::Read {
            key: "stale".to_owned(),
            consistency: ReadConsistency::Linearizable,
        },
    ));
    assert_eq!(
        stale_target_read.response,
        ClientResponse::Redirect { leader: new_leader }
    );
}

#[test]
fn read_lease_window_is_clamped_to_election_timeout_safety_margin() {
    let cluster = RaftCluster::new(vec![1, 2, 3, 4, 5]).expect("cluster should build");
    let mut api = ApiService::with_config(
        cluster,
        TransportConfig {
            proposal_timeout_ticks: 2,
            read_timeout_ticks: 0,
            read_lease_ticks: 50,
            max_pending_entries: 64,
        },
    );

    let leader = api.leader_address();
    let client = client_address();

    let write = api.handle(request(
        46,
        client.clone(),
        leader.clone(),
        None,
        ClientRequest::Write(Command::Put {
            key: "lease-cap".to_owned(),
            value: "value".to_owned(),
        }),
    ));
    assert!(matches!(
        write.response,
        ClientResponse::WriteCommitted { index: 1, .. }
    ));

    let lease_read = api.handle(request(
        47,
        client.clone(),
        leader.clone(),
        Some(0),
        ClientRequest::Read {
            key: "lease-cap".to_owned(),
            consistency: ReadConsistency::Linearizable,
        },
    ));
    assert!(matches!(
        lease_read.response,
        ClientResponse::ReadResult {
            consistency: ReadConsistency::Linearizable,
            ..
        }
    ));

    api.cluster_mut()
        .disconnect(3)
        .expect("disconnect should work");
    api.cluster_mut()
        .disconnect(4)
        .expect("disconnect should work");
    api.cluster_mut()
        .disconnect(5)
        .expect("disconnect should work");

    api.cluster_mut()
        .tick_many(6)
        .expect("ticks should advance beyond safety-capped lease");

    let after_cap = api.handle(request(
        48,
        client,
        leader,
        Some(0),
        ClientRequest::Read {
            key: "lease-cap".to_owned(),
            consistency: ReadConsistency::Linearizable,
        },
    ));
    assert_eq!(
        after_cap.response,
        ClientResponse::TimedOut {
            operation: TimeoutOperation::LinearizableRead,
            index: None,
            observed_nodes: 2,
        }
    );
}

#[test]
fn lease_is_invalidated_when_clock_moves_backwards() {
    let cluster = RaftCluster::new(vec![1, 2, 3]).expect("cluster should build");
    let mut api = ApiService::new(cluster);

    api.read_lease = Some(ReadLease {
        leader_id: api.cluster().leader_id(),
        term: api.cluster().current_term(),
        issued_at_tick: 7,
        expires_at_tick: 9,
        acknowledged_nodes: 3,
    });

    assert_eq!(api.active_read_lease(), None);
}

#[test]
fn eventual_read_on_lagging_follower_returns_older_mvcc_version() {
    let cluster = RaftCluster::new(vec![1, 2, 3]).expect("cluster should build");
    let mut api = ApiService::new(cluster);
    let leader = api.leader_address();
    let follower = api
        .address_for(3)
        .expect("follower address should exist")
        .clone();
    let client = client_address();

    let _ = api.handle(request(
        44,
        client.clone(),
        leader.clone(),
        None,
        ClientRequest::Sql {
            query: "INSERT INTO kv (key, value) VALUES ('planet', 'earth')".to_owned(),
            read_consistency: ReadConsistency::Eventual,
        },
    ));

    api.cluster_mut()
        .disconnect(3)
        .expect("disconnect should work");

    let _ = api.handle(request(
        45,
        client.clone(),
        leader.clone(),
        None,
        ClientRequest::Sql {
            query: "UPDATE kv SET value = 'saturn' WHERE key = 'planet'".to_owned(),
            read_consistency: ReadConsistency::Eventual,
        },
    ));

    let eventual_on_lagging_follower = api.handle(request(
        46,
        client.clone(),
        follower,
        None,
        ClientRequest::Read {
            key: "planet".to_owned(),
            consistency: ReadConsistency::Eventual,
        },
    ));
    assert_eq!(
        eventual_on_lagging_follower.response,
        ClientResponse::ReadResult {
            value: Some("earth".to_owned()),
            consistency: ReadConsistency::Eventual,
        }
    );

    let linearizable_on_leader = api.handle(request(
        47,
        client,
        leader,
        None,
        ClientRequest::Read {
            key: "planet".to_owned(),
            consistency: ReadConsistency::Linearizable,
        },
    ));
    assert_eq!(
        linearizable_on_leader.response,
        ClientResponse::ReadResult {
            value: Some("saturn".to_owned()),
            consistency: ReadConsistency::Linearizable,
        }
    );
}

#[test]
fn mvcc_rebuilds_if_cluster_state_advances_outside_api_service() {
    let cluster = RaftCluster::new(vec![1, 2, 3]).expect("cluster should build");
    let mut api = ApiService::new(cluster);
    let leader = api.leader_address();

    api.cluster_mut()
        .propose(Command::Put {
            key: "out-of-band".to_owned(),
            value: "write".to_owned(),
        })
        .expect("direct cluster proposal should commit");

    let response = api.handle(request(
        48,
        client_address(),
        leader,
        None,
        ClientRequest::Read {
            key: "out-of-band".to_owned(),
            consistency: ReadConsistency::Linearizable,
        },
    ));

    assert_eq!(
        response.response,
        ClientResponse::ReadResult {
            value: Some("write".to_owned()),
            consistency: ReadConsistency::Linearizable,
        }
    );
}

#[test]
fn sql_insert_select_delete_executes_against_replicated_state() {
    let cluster = RaftCluster::new(vec![1, 2, 3]).expect("cluster should build");
    let mut api = ApiService::new(cluster);
    let leader = api.leader_address();
    let client = client_address();

    let insert = api.handle(request(
        50,
        client.clone(),
        leader.clone(),
        None,
        ClientRequest::Sql {
            query: "INSERT INTO kv (key, value) VALUES ('planet', 'saturn')".to_owned(),
            read_consistency: ReadConsistency::Eventual,
        },
    ));
    assert_eq!(
        insert.response,
        ClientResponse::SqlWriteResult {
            affected_rows: 1,
            last_index: Some(1),
            committed_nodes: 3,
        }
    );

    let update = api.handle(request(
        51,
        client.clone(),
        leader.clone(),
        None,
        ClientRequest::Sql {
            query: "UPDATE kv SET value = 'gas giant' WHERE key = 'planet'".to_owned(),
            read_consistency: ReadConsistency::Eventual,
        },
    ));
    assert_eq!(
        update.response,
        ClientResponse::SqlWriteResult {
            affected_rows: 1,
            last_index: Some(2),
            committed_nodes: 3,
        }
    );

    let select = api.handle(request(
        52,
        client.clone(),
        leader.clone(),
        None,
        ClientRequest::Sql {
            query: "SELECT key, value FROM kv WHERE value != 'cold'".to_owned(),
            read_consistency: ReadConsistency::Linearizable,
        },
    ));
    assert_eq!(
        select.response,
        ClientResponse::SqlRows {
            columns: vec!["key".to_owned(), "value".to_owned()],
            rows: vec![vec!["planet".to_owned(), "gas giant".to_owned()]],
            consistency: ReadConsistency::Linearizable,
        }
    );

    let delete = api.handle(request(
        53,
        client.clone(),
        leader.clone(),
        None,
        ClientRequest::Sql {
            query: "DELETE FROM kv WHERE key = 'planet'".to_owned(),
            read_consistency: ReadConsistency::Eventual,
        },
    ));
    assert_eq!(
        delete.response,
        ClientResponse::SqlWriteResult {
            affected_rows: 1,
            last_index: Some(3),
            committed_nodes: 3,
        }
    );

    let select_after_delete = api.handle(request(
        54,
        client,
        leader,
        None,
        ClientRequest::Sql {
            query: "SELECT value FROM kv WHERE key = 'planet'".to_owned(),
            read_consistency: ReadConsistency::Eventual,
        },
    ));
    assert_eq!(
        select_after_delete.response,
        ClientResponse::SqlRows {
            columns: vec!["value".to_owned()],
            rows: Vec::new(),
            consistency: ReadConsistency::Eventual,
        }
    );
}

#[test]
fn invalid_sql_returns_invalid_query_response() {
    let cluster = RaftCluster::new(vec![1, 2, 3]).expect("cluster should build");
    let mut api = ApiService::new(cluster);
    let leader = api.leader_address();

    let response = api.handle(request(
        55,
        client_address(),
        leader,
        None,
        ClientRequest::Sql {
            query: "UPDATE kv SET key = '2' WHERE key = 'planet'".to_owned(),
            read_consistency: ReadConsistency::Eventual,
        },
    ));

    assert!(matches!(
        response.response,
        ClientResponse::InvalidQuery { .. }
    ));
}

#[test]
fn sql_predicate_mutation_can_affect_multiple_rows() {
    let cluster = RaftCluster::new(vec![1, 2, 3]).expect("cluster should build");
    let mut api = ApiService::new(cluster);
    let leader = api.leader_address();
    let client = client_address();

    let _ = api.handle(request(
        60,
        client.clone(),
        leader.clone(),
        None,
        ClientRequest::Sql {
            query: "INSERT INTO kv (key, value) VALUES ('k1', 'v')".to_owned(),
            read_consistency: ReadConsistency::Eventual,
        },
    ));
    let _ = api.handle(request(
        61,
        client.clone(),
        leader.clone(),
        None,
        ClientRequest::Sql {
            query: "INSERT INTO kv (key, value) VALUES ('k2', 'v')".to_owned(),
            read_consistency: ReadConsistency::Eventual,
        },
    ));

    let update = api.handle(request(
        62,
        client.clone(),
        leader.clone(),
        None,
        ClientRequest::Sql {
            query: "UPDATE kv SET value = 'changed' WHERE value = 'v'".to_owned(),
            read_consistency: ReadConsistency::Eventual,
        },
    ));
    assert_eq!(
        update.response,
        ClientResponse::SqlWriteResult {
            affected_rows: 2,
            last_index: Some(4),
            committed_nodes: 3,
        }
    );

    let select = api.handle(request(
        63,
        client,
        leader,
        None,
        ClientRequest::Sql {
            query: "SELECT key, value FROM kv WHERE value = 'changed'".to_owned(),
            read_consistency: ReadConsistency::Linearizable,
        },
    ));
    assert_eq!(
        select.response,
        ClientResponse::SqlRows {
            columns: vec!["key".to_owned(), "value".to_owned()],
            rows: vec![
                vec!["k1".to_owned(), "changed".to_owned()],
                vec!["k2".to_owned(), "changed".to_owned()],
            ],
            consistency: ReadConsistency::Linearizable,
        }
    );
}

#[test]
fn in_process_transport_round_trip_delegates_to_api_service() {
    let cluster = RaftCluster::new(vec![1, 2, 3]).expect("cluster should build");
    let mut api = ApiService::new(cluster);
    let leader = api.leader_address();

    let mut transport = api.in_process_transport();
    let response = transport
        .round_trip(request(
            51,
            client_address(),
            leader,
            None,
            ClientRequest::Write(Command::Put {
                key: "transport".to_owned(),
                value: "in-process".to_owned(),
            }),
        ))
        .expect("round trip should succeed");

    assert!(matches!(
        response.response,
        ClientResponse::WriteCommitted { index: 1, .. }
    ));
}

#[test]
fn grpc_transport_adapter_forwards_method_and_envelope() {
    let client_request = request(
        61,
        client_address(),
        NodeAddress::new(1, "node-1.anvildb.internal".to_owned()),
        None,
        ClientRequest::Read {
            key: "planet".to_owned(),
            consistency: ReadConsistency::Eventual,
        },
    );
    let expected_response = ResponseEnvelope {
        request_id: 61,
        from: NodeAddress::new(1, "node-1.anvildb.internal".to_owned()),
        to: client_address(),
        response: ClientResponse::ReadResult {
            value: Some("saturn".to_owned()),
            consistency: ReadConsistency::Eventual,
        },
    };

    let fake_client = FakeGrpcClient::with_response(expected_response.clone());
    let mut transport = GrpcTransportAdapter::new(fake_client);

    let response = transport
        .round_trip(client_request.clone())
        .expect("adapter should return client response");
    assert_eq!(response, expected_response);
    assert_eq!(
        transport.client().seen_paths,
        vec![DEFAULT_GRPC_METHOD_PATH.to_owned()]
    );
    assert_eq!(transport.client().seen_requests, vec![client_request]);
}

#[test]
fn grpc_wire_codec_round_trips_envelopes() {
    let request_envelope = request(
        70,
        client_address(),
        NodeAddress::new(1, "node-1.anvildb.internal".to_owned()),
        Some(3),
        ClientRequest::Sql {
            query: "SELECT key, value FROM kv WHERE value != 'cold'".to_owned(),
            read_consistency: ReadConsistency::Linearizable,
        },
    );

    let encoded_request =
        GrpcWireCodec::encode_request(&request_envelope).expect("request should encode");
    let decoded_request =
        GrpcWireCodec::decode_request(&encoded_request).expect("request should decode");
    assert_eq!(decoded_request, request_envelope);

    let response_envelope = ResponseEnvelope {
        request_id: 70,
        from: NodeAddress::new(1, "node-1.anvildb.internal".to_owned()),
        to: client_address(),
        response: ClientResponse::SqlRows {
            columns: vec!["key".to_owned(), "value".to_owned()],
            rows: vec![vec!["planet".to_owned(), "saturn".to_owned()]],
            consistency: ReadConsistency::Linearizable,
        },
    };

    let encoded_response =
        GrpcWireCodec::encode_response(&response_envelope).expect("response should encode");
    let decoded_response =
        GrpcWireCodec::decode_response(&encoded_response).expect("response should decode");
    assert_eq!(decoded_response, response_envelope);
}

#[test]
fn grpc_wire_transport_adapter_round_trips_through_wire_server() {
    let cluster = RaftCluster::new(vec![1, 2, 3]).expect("cluster should build");
    let service = ApiService::new(cluster);
    let leader = service.leader_address();
    let mut transport = GrpcWireTransportAdapter::new(LoopbackGrpcWireClient::new(
        GrpcWireServer::new(service),
    ));

    let write = transport
        .round_trip(request(
            71,
            client_address(),
            leader.clone(),
            None,
            ClientRequest::Write(Command::Put {
                key: "wire".to_owned(),
                value: "grpc".to_owned(),
            }),
        ))
        .expect("wire round trip should succeed");
    assert!(matches!(
        write.response,
        ClientResponse::WriteCommitted { index: 1, .. }
    ));

    let read = transport
        .round_trip(request(
            72,
            client_address(),
            leader,
            None,
            ClientRequest::Read {
                key: "wire".to_owned(),
                consistency: ReadConsistency::Linearizable,
            },
        ))
        .expect("wire round trip read should succeed");
    assert_eq!(
        read.response,
        ClientResponse::ReadResult {
            value: Some("grpc".to_owned()),
            consistency: ReadConsistency::Linearizable,
        }
    );

    assert_eq!(
        transport.client().seen_paths,
        vec![
            DEFAULT_GRPC_METHOD_PATH.to_owned(),
            DEFAULT_GRPC_METHOD_PATH.to_owned()
        ]
    );
    assert_eq!(transport.client().seen_payload_sizes.len(), 2);
}

#[test]
fn grpc_wire_server_rejects_unknown_method_path() {
    let cluster = RaftCluster::new(vec![1, 2, 3]).expect("cluster should build");
    let service = ApiService::new(cluster);
    let mut transport = GrpcWireTransportAdapter::new(LoopbackGrpcWireClient::new(
        GrpcWireServer::new(service),
    ))
    .with_method_path("/anvildb.v1.Api/Unknown".to_owned());

    let response = transport.round_trip(request(
        73,
        client_address(),
        NodeAddress::new(1, "node-1.anvildb.internal".to_owned()),
        None,
        ClientRequest::Read {
            key: "wire".to_owned(),
            consistency: ReadConsistency::Eventual,
        },
    ));

    assert!(matches!(
        response,
        Err(TransportError::Remote(message))
        if message.contains("unsupported gRPC method path")
    ));
}

#[test]
fn grpc_wire_server_handles_fragmented_chunk_streams() {
    let cluster = RaftCluster::new(vec![1, 2, 3]).expect("cluster should build");
    let service = ApiService::new(cluster);
    let leader = service.leader_address();
    let mut server = GrpcWireServer::new(service);

    let write_request = request(
        80,
        client_address(),
        leader.clone(),
        None,
        ClientRequest::Write(Command::Put {
            key: "chunked".to_owned(),
            value: "ok".to_owned(),
        }),
    );
    let write_payload =
        GrpcWireCodec::encode_request(&write_request).expect("request should encode");
    let write_chunks = chunk_bytes(&write_payload, 3);
    let write_response_payload = server
        .handle_unary_chunked_bytes(
            DEFAULT_GRPC_METHOD_PATH,
            &write_chunks,
        )
        .expect("chunked write should succeed");
    let write_response = GrpcWireCodec::decode_response(&write_response_payload)
        .expect("response should decode");
    assert!(matches!(
        write_response.response,
        ClientResponse::WriteCommitted { index: 1, .. }
    ));

    let read_request = request(
        81,
        client_address(),
        leader,
        None,
        ClientRequest::Read {
            key: "chunked".to_owned(),
            consistency: ReadConsistency::Linearizable,
        },
    );
    let read_payload = GrpcWireCodec::encode_request(&read_request).expect("request encodes");
    let read_chunks = chunk_bytes(&read_payload, 2);
    let read_response_payload = server
        .handle_unary_chunked_bytes(
            DEFAULT_GRPC_METHOD_PATH,
            &read_chunks,
        )
        .expect("chunked read should succeed");
    let read_response =
        GrpcWireCodec::decode_response(&read_response_payload).expect("response should decode");
    assert_eq!(
        read_response.response,
        ClientResponse::ReadResult {
            value: Some("ok".to_owned()),
            consistency: ReadConsistency::Linearizable,
        }
    );
}

#[test]
fn grpc_wire_codec_rejects_truncated_and_trailing_payloads() {
    let req = request(
        82,
        client_address(),
        NodeAddress::new(1, "node-1.anvildb.internal".to_owned()),
        Some(1),
        ClientRequest::Read {
            key: "planet".to_owned(),
            consistency: ReadConsistency::Eventual,
        },
    );
    let encoded_req = GrpcWireCodec::encode_request(&req).expect("request encodes");

    let truncated_req = &encoded_req[..encoded_req.len() - 1];
    assert!(matches!(
        GrpcWireCodec::decode_request(truncated_req),
        Err(GrpcCodecError::InvalidPayload(_))
    ));

    let mut trailing_req = encoded_req.clone();
    trailing_req.push(0xAA);
    assert!(matches!(
        GrpcWireCodec::decode_request(&trailing_req),
        Err(GrpcCodecError::InvalidPayload(_))
    ));

    let resp = ResponseEnvelope {
        request_id: 82,
        from: NodeAddress::new(1, "node-1.anvildb.internal".to_owned()),
        to: client_address(),
        response: ClientResponse::ReadResult {
            value: Some("planet".to_owned()),
            consistency: ReadConsistency::Linearizable,
        },
    };
    let encoded_resp = GrpcWireCodec::encode_response(&resp).expect("response encodes");

    let truncated_resp = &encoded_resp[..encoded_resp.len() - 1];
    assert!(matches!(
        GrpcWireCodec::decode_response(truncated_resp),
        Err(GrpcCodecError::InvalidPayload(_))
    ));

    let mut trailing_resp = encoded_resp;
    trailing_resp.extend_from_slice(&[0xBB, 0xCC]);
    assert!(matches!(
        GrpcWireCodec::decode_response(&trailing_resp),
        Err(GrpcCodecError::InvalidPayload(_))
    ));
}

#[test]
fn grpc_wire_transport_matches_in_process_transport_behavior() {
    let mut in_process_api =
        ApiService::new(RaftCluster::new(vec![1, 2, 3]).expect("cluster should build"));
    let wire_api =
        ApiService::new(RaftCluster::new(vec![1, 2, 3]).expect("cluster should build"));

    let leader = in_process_api.leader_address();
    let mut wire_transport = GrpcWireTransportAdapter::new(LoopbackGrpcWireClient::new(
        GrpcWireServer::new(wire_api),
    ));

    let requests = [
        ClientRequest::Write(Command::Put {
            key: "interop".to_owned(),
            value: "one".to_owned(),
        }),
        ClientRequest::Read {
            key: "interop".to_owned(),
            consistency: ReadConsistency::Eventual,
        },
        ClientRequest::Read {
            key: "interop".to_owned(),
            consistency: ReadConsistency::Linearizable,
        },
        ClientRequest::Sql {
            query: "SELECT key, value FROM kv WHERE key = 'interop'".to_owned(),
            read_consistency: ReadConsistency::Linearizable,
        },
    ];

    for (idx, req) in requests.iter().enumerate() {
        let request_id = 90 + (idx as u64);
        let in_process_response = in_process_api.handle(request(
            request_id,
            client_address(),
            leader.clone(),
            None,
            req.clone(),
        ));
        let wire_response = wire_transport
            .round_trip(request(
                request_id,
                client_address(),
                leader.clone(),
                None,
                req.clone(),
            ))
            .expect("wire transport should succeed");

        assert_eq!(
            wire_response.response, in_process_response.response,
            "response mismatch at request index {idx}"
        );
    }
}

#[test]
fn grpc_wire_server_rejects_corrupted_request_payload() {
    let cluster = RaftCluster::new(vec![1, 2, 3]).expect("cluster should build");
    let service = ApiService::new(cluster);
    let mut server = GrpcWireServer::new(service);

    let response = server.handle_unary_bytes(DEFAULT_GRPC_METHOD_PATH, &[0xFF, 0x00, 0x01]);

    assert!(matches!(
        response,
        Err(TransportError::Remote(message))
        if message.contains("invalid gRPC payload")
    ));
}
