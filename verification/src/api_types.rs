//! Requests, responses and the configuration of the client interface.
use vstd::prelude::*;

use crate::mvcc;
use crate::text;
use crate::text::{decimal_text, join3};
use crate::types::{Command, CommandV, Index, NodeId};

verus! {

pub const DEFAULT_PROPOSAL_TIMEOUT_TICKS: u64 = 8;

pub const DEFAULT_READ_TIMEOUT_TICKS: u64 = 4;

pub const DEFAULT_READ_LEASE_TICKS: u64 = 3;

pub const DEFAULT_MAX_PENDING_ENTRIES: u64 = 64;

/// A node and where it is reached.
#[derive(Debug, PartialEq, Eq)]
pub struct NodeAddress {
    pub node_id: NodeId,
    pub endpoint: String,
}

/// A [`NodeAddress`] over the characters of its endpoint.
pub struct AddressV {
    pub node_id: NodeId,
    pub endpoint: Seq<char>,
}

impl View for NodeAddress {
    type V = AddressV;

    open spec fn view(&self) -> AddressV {
        AddressV { node_id: self.node_id, endpoint: self.endpoint@ }
    }
}

impl Clone for NodeAddress {
    fn clone(&self) -> (r: Self)
        ensures
            r == *self,
    {
        NodeAddress { node_id: self.node_id, endpoint: self.endpoint.clone() }
    }
}

impl NodeAddress {
    pub fn new(node_id: NodeId, endpoint: String) -> (r: Self)
        ensures
            r == (NodeAddress { node_id, endpoint }),
    {
        NodeAddress { node_id, endpoint }
    }

    /// Whether two addresses are the same node at the same endpoint.
    pub fn same_as(&self, other: &NodeAddress) -> (r: bool)
        ensures
            r == (self@ == other@),
    {
        self.node_id == other.node_id && text::text_equal(
            self.endpoint.as_str(),
            other.endpoint.as_str(),
        )
    }
}

/// The address that a node has unless another is known.
pub open spec fn default_address(node_id: NodeId) -> AddressV {
    AddressV {
        node_id,
        endpoint: "node-"@ + text::decimal(node_id as nat) + ".anvildb.internal"@,
    }
}

pub fn default_node_address(node_id: NodeId) -> (r: NodeAddress)
    ensures
        r@ == default_address(node_id),
{
    NodeAddress::new(
        node_id,
        join3("node-", decimal_text(node_id as u128).as_str(), ".anvildb.internal"),
    )
}

/// How fresh a read has to be.
#[derive(Debug, Clone, Copy, PartialEq, Eq, Structural)]
pub enum ReadConsistency {
    Eventual,
    Linearizable,
}

/// What a client asks.
#[derive(Debug, PartialEq, Eq)]
pub enum ClientRequest {
    Write(Command),
    Read { key: String, consistency: ReadConsistency },
    Sql { query: String, read_consistency: ReadConsistency },
}

/// A [`ClientRequest`] over its characters.
pub enum ClientRequestV {
    Write(CommandV),
    Read { key: Seq<char>, consistency: ReadConsistency },
    Sql { query: Seq<char>, read_consistency: ReadConsistency },
}

impl View for ClientRequest {
    type V = ClientRequestV;

    open spec fn view(&self) -> ClientRequestV {
        match self {
            ClientRequest::Write(command) => ClientRequestV::Write(command@),
            ClientRequest::Read { key, consistency } => ClientRequestV::Read {
                key: key@,
                consistency: *consistency,
            },
            ClientRequest::Sql { query, read_consistency } => ClientRequestV::Sql {
                query: query@,
                read_consistency: *read_consistency,
            },
        }
    }
}

impl Clone for ClientRequest {
    fn clone(&self) -> (r: Self)
        ensures
            r == *self,
    {
        match self {
            ClientRequest::Write(command) => ClientRequest::Write(command.clone()),
            ClientRequest::Read { key, consistency } => ClientRequest::Read {
                key: key.clone(),
                consistency: *consistency,
            },
            ClientRequest::Sql { query, read_consistency } => ClientRequest::Sql {
                query: query.clone(),
                read_consistency: *read_consistency,
            },
        }
    }
}

/// A request on its way.
#[derive(Debug, PartialEq, Eq)]
pub struct RequestEnvelope {
    pub request_id: u64,
    pub from: NodeAddress,
    pub to: NodeAddress,
    pub timeout_ticks: Option<u64>,
    pub request: ClientRequest,
}

/// A [`RequestEnvelope`] over the views of its parts.
pub struct RequestEnvelopeV {
    pub request_id: u64,
    pub from: AddressV,
    pub to: AddressV,
    pub timeout_ticks: Option<u64>,
    pub request: ClientRequestV,
}

impl View for RequestEnvelope {
    type V = RequestEnvelopeV;

    open spec fn view(&self) -> RequestEnvelopeV {
        RequestEnvelopeV {
            request_id: self.request_id,
            from: self.from@,
            to: self.to@,
            timeout_ticks: self.timeout_ticks,
            request: self.request@,
        }
    }
}

impl Clone for RequestEnvelope {
    fn clone(&self) -> (r: Self)
        ensures
            r == *self,
    {
        RequestEnvelope {
            request_id: self.request_id,
            from: self.from.clone(),
            to: self.to.clone(),
            timeout_ticks: self.timeout_ticks,
            request: self.request.clone(),
        }
    }
}

/// What took too long.
#[derive(Debug, Clone, Copy, PartialEq, Eq, Structural)]
pub enum TimeoutOperation {
    Proposal,
    LinearizableRead,
}

/// What a client is answered.
#[allow(inconsistent_fields)]
#[derive(Debug, PartialEq, Eq)]
pub enum ClientResponse {
    WriteCommitted { index: Index, committed_nodes: usize },
    ReadResult { value: Option<String>, consistency: ReadConsistency },
    Redirect { leader: NodeAddress },
    TimedOut { operation: TimeoutOperation, index: Option<Index>, observed_nodes: usize },
    Overloaded { pending_entries: u64, limit: u64 },
    RouteError { message: String },
    InvalidQuery { message: String },
    SqlRows { columns: Vec<String>, rows: Vec<Vec<String>>, consistency: ReadConsistency },
    SqlWriteResult { affected_rows: usize, last_index: Option<Index>, committed_nodes: usize },
    InternalError { message: String },
}

/// A [`ClientResponse`] over its characters.
#[allow(inconsistent_fields)]
pub enum ClientResponseV {
    WriteCommitted { index: Index, committed_nodes: usize },
    ReadResult { value: Option<Seq<char>>, consistency: ReadConsistency },
    Redirect { leader: AddressV },
    TimedOut { operation: TimeoutOperation, index: Option<Index>, observed_nodes: usize },
    Overloaded { pending_entries: u64, limit: u64 },
    RouteError { message: Seq<char> },
    InvalidQuery { message: Seq<char> },
    SqlRows { columns: Seq<Seq<char>>, rows: Seq<Seq<Seq<char>>>, consistency: ReadConsistency },
    SqlWriteResult { affected_rows: usize, last_index: Option<Index>, committed_nodes: usize },
    InternalError { message: Seq<char> },
}

/// The characters of rows of strings.
pub open spec fn rows_view(rows: Seq<Vec<String>>) -> Seq<Seq<Seq<char>>> {
    Seq::new(rows.len(), |i: int| text::texts(rows[i]@))
}

impl View for ClientResponse {
    type V = ClientResponseV;

    open spec fn view(&self) -> ClientResponseV {
        match self {
            ClientResponse::WriteCommitted { index, committed_nodes } =>
                ClientResponseV::WriteCommitted {
                index: *index,
                committed_nodes: *committed_nodes,
            },
            ClientResponse::ReadResult { value, consistency } => ClientResponseV::ReadResult {
                value: mvcc::text_view(*value),
                consistency: *consistency,
            },
            ClientResponse::Redirect { leader } => ClientResponseV::Redirect { leader: leader@ },
            ClientResponse::TimedOut { operation, index, observed_nodes } =>
                ClientResponseV::TimedOut {
                operation: *operation,
                index: *index,
                observed_nodes: *observed_nodes,
            },
            ClientResponse::Overloaded { pending_entries, limit } => ClientResponseV::Overloaded {
                pending_entries: *pending_entries,
                limit: *limit,
            },
            ClientResponse::RouteError { message } => ClientResponseV::RouteError {
                message: message@,
            },
            ClientResponse::InvalidQuery { message } => ClientResponseV::InvalidQuery {
                message: message@,
            },
            ClientResponse::SqlRows { columns, rows, consistency } => ClientResponseV::SqlRows {
                columns: text::texts(columns@),
                rows: rows_view(rows@),
                consistency: *consistency,
            },
            ClientResponse::SqlWriteResult { affected_rows, last_index, committed_nodes } =>
                ClientResponseV::SqlWriteResult {
                affected_rows: *affected_rows,
                last_index: *last_index,
                committed_nodes: *committed_nodes,
            },
            ClientResponse::InternalError { message } => ClientResponseV::InternalError {
                message: message@,
            },
        }
    }
}

/// A copy of a list of strings.
pub fn copy_texts(values: &Vec<String>) -> (r: Vec<String>)
    ensures
        text::texts(r@) == text::texts(values@),
{
    let mut r: Vec<String> = Vec::new();
    let mut i: usize = 0;
    while i < values.len()
        invariant
            i <= values@.len(),
            r@.len() == i,
            forall|k: int| 0 <= k < i ==> #[trigger] r@[k] == values@[k],
        decreases values@.len() - i,
    {
        r.push(values[i].clone());
        i += 1;
    }
    assert(text::texts(r@) =~= text::texts(values@));
    r
}

/// A copy of rows of strings.
pub fn copy_rows(rows: &Vec<Vec<String>>) -> (r: Vec<Vec<String>>)
    ensures
        rows_view(r@) == rows_view(rows@),
{
    let mut r: Vec<Vec<String>> = Vec::new();
    let mut i: usize = 0;
    while i < rows.len()
        invariant
            i <= rows@.len(),
            r@.len() == i,
            forall|k: int| 0 <= k < i ==> text::texts((#[trigger] r@[k])@) == text::texts(rows@[k]@),
        decreases rows@.len() - i,
    {
        r.push(copy_texts(&rows[i]));
        i += 1;
    }
    assert(rows_view(r@) =~= rows_view(rows@));
    r
}

impl Clone for ClientResponse {
    fn clone(&self) -> (r: Self)
        ensures
            r@ == self@,
    {
        match self {
            ClientResponse::WriteCommitted { index, committed_nodes } =>
                ClientResponse::WriteCommitted {
                index: *index,
                committed_nodes: *committed_nodes,
            },
            ClientResponse::ReadResult { value, consistency } => ClientResponse::ReadResult {
                value: match value {
                    Some(v) => Some(v.clone()),
                    None => None,
                },
                consistency: *consistency,
            },
            ClientResponse::Redirect { leader } => ClientResponse::Redirect {
                leader: leader.clone(),
            },
            ClientResponse::TimedOut { operation, index, observed_nodes } =>
                ClientResponse::TimedOut {
                operation: *operation,
                index: *index,
                observed_nodes: *observed_nodes,
            },
            ClientResponse::Overloaded { pending_entries, limit } => ClientResponse::Overloaded {
                pending_entries: *pending_entries,
                limit: *limit,
            },
            ClientResponse::RouteError { message } => ClientResponse::RouteError {
                message: message.clone(),
            },
            ClientResponse::InvalidQuery { message } => ClientResponse::InvalidQuery {
                message: message.clone(),
            },
            ClientResponse::SqlRows { columns, rows, consistency } => ClientResponse::SqlRows {
                columns: copy_texts(columns),
                rows: copy_rows(rows),
                consistency: *consistency,
            },
            ClientResponse::SqlWriteResult { affected_rows, last_index, committed_nodes } =>
                ClientResponse::SqlWriteResult {
                affected_rows: *affected_rows,
                last_index: *last_index,
                committed_nodes: *committed_nodes,
            },
            ClientResponse::InternalError { message } => ClientResponse::InternalError {
                message: message.clone(),
            },
        }
    }
}

/// A response on its way.
#[derive(Debug, PartialEq, Eq)]
pub struct ResponseEnvelope {
    pub request_id: u64,
    pub from: NodeAddress,
    pub to: NodeAddress,
    pub response: ClientResponse,
}

/// A [`ResponseEnvelope`] over the views of its parts.
pub struct ResponseEnvelopeV {
    pub request_id: u64,
    pub from: AddressV,
    pub to: AddressV,
    pub response: ClientResponseV,
}

impl View for ResponseEnvelope {
    type V = ResponseEnvelopeV;

    open spec fn view(&self) -> ResponseEnvelopeV {
        ResponseEnvelopeV {
            request_id: self.request_id,
            from: self.from@,
            to: self.to@,
            response: self.response@,
        }
    }
}

impl Clone for ResponseEnvelope {
    fn clone(&self) -> (r: Self)
        ensures
            r@ == self@,
    {
        ResponseEnvelope {
            request_id: self.request_id,
            from: self.from.clone(),
            to: self.to.clone(),
            response: self.response.clone(),
        }
    }
}

/// How long and how much the client interface waits for.
#[derive(Debug, Clone, Copy, PartialEq, Eq, Structural)]
pub struct TransportConfig {
    pub proposal_timeout_ticks: u64,
    pub read_timeout_ticks: u64,
    pub read_lease_ticks: u64,
    pub max_pending_entries: u64,
}

/// The configuration where nothing else is asked for.
pub open spec fn default_config() -> TransportConfig {
    TransportConfig {
        proposal_timeout_ticks: DEFAULT_PROPOSAL_TIMEOUT_TICKS,
        read_timeout_ticks: DEFAULT_READ_TIMEOUT_TICKS,
        read_lease_ticks: DEFAULT_READ_LEASE_TICKS,
        max_pending_entries: DEFAULT_MAX_PENDING_ENTRIES,
    }
}

impl Default for TransportConfig {
    fn default() -> (r: Self)
        ensures
            r == default_config(),
    {
        TransportConfig {
            proposal_timeout_ticks: DEFAULT_PROPOSAL_TIMEOUT_TICKS,
            read_timeout_ticks: DEFAULT_READ_TIMEOUT_TICKS,
            read_lease_ticks: DEFAULT_READ_LEASE_TICKS,
            max_pending_entries: DEFAULT_MAX_PENDING_ENTRIES,
        }
    }
}

} // verus!
