//! Requests and responses as bytes.
use vstd::prelude::*;

use crate::api_types;
use crate::api_types::{
    AddressV, ClientRequest, ClientRequestV, ClientResponse, ClientResponseV, NodeAddress,
    ReadConsistency, RequestEnvelope, RequestEnvelopeV, ResponseEnvelope, ResponseEnvelopeV,
    TimeoutOperation,
};
use crate::bytes;
use crate::text;
use crate::text::{decimal_text, join2};
use crate::types::{Command, CommandV};
use crate::wire_fields;
use crate::wire_fields::{BinaryDecoder, BinaryEncoder, Field, GrpcCodecError, GrpcCodecErrorV};

verus! {

#[verifier::opaque]
pub open spec fn address_bytes(address: AddressV) -> Seq<u8> {
    bytes::le64(address.node_id) + wire_fields::text_bytes(address.endpoint)
}

pub open spec fn consistency_tag(consistency: ReadConsistency) -> u8 {
    match consistency {
        ReadConsistency::Eventual => 0,
        ReadConsistency::Linearizable => 1,
    }
}

pub open spec fn operation_tag(operation: TimeoutOperation) -> u8 {
    match operation {
        TimeoutOperation::Proposal => 0,
        TimeoutOperation::LinearizableRead => 1,
    }
}

#[verifier::opaque]
pub open spec fn command_bytes(command: CommandV) -> Seq<u8> {
    match command {
        CommandV::Put { key, value } => seq![0u8] + wire_fields::text_bytes(key)
            + wire_fields::text_bytes(value),
        CommandV::Delete { key } => seq![1u8] + wire_fields::text_bytes(key),
    }
}

/// The part of a request that differs by its kind.
#[verifier::opaque]
pub open spec fn request_body_bytes(request: ClientRequestV) -> Seq<u8> {
    match request {
        ClientRequestV::Write(command) => seq![0u8] + command_bytes(command),
        ClientRequestV::Read { key, consistency } => seq![1u8] + wire_fields::text_bytes(key)
            + seq![consistency_tag(consistency)],
        ClientRequestV::Sql { query, read_consistency } => seq![2u8] + wire_fields::text_bytes(
            query,
        ) + seq![consistency_tag(read_consistency)],
    }
}

/// A request: its id, where it comes from and goes to, its timeout, its body.
pub open spec fn request_bytes(request: RequestEnvelopeV) -> Seq<u8> {
    bytes::le64(request.request_id) + (address_bytes(request.from) + (address_bytes(request.to) + (
    wire_fields::option_u64_bytes(request.timeout_ticks) + request_body_bytes(request.request))))
}

/// Rows: for each its number of values, then the values.
pub open spec fn rows_bytes(rows: Seq<Seq<Seq<char>>>) -> Seq<u8>
    decreases rows.len(),
{
    if rows.len() == 0 {
        Seq::empty()
    } else {
        rows_bytes(rows.drop_last()) + row_bytes(rows.last())
    }
}

#[verifier::opaque]
pub open spec fn row_bytes(row: Seq<Seq<char>>) -> Seq<u8> {
    bytes::le64(row.len() as u64) + wire_fields::texts_bytes(row)
}

/// The part of a response that differs by its kind.
#[verifier::opaque]
pub open spec fn response_body_bytes(response: ClientResponseV) -> Seq<u8> {
    match response {
        ClientResponseV::WriteCommitted { index, committed_nodes } => seq![0u8] + (bytes::le64(
            index,
        ) + bytes::le64(committed_nodes as u64)),
        ClientResponseV::ReadResult { value, consistency } => seq![1u8] + (
        wire_fields::option_text_bytes(value) + seq![consistency_tag(consistency)]),
        ClientResponseV::Redirect { leader } => seq![2u8] + address_bytes(leader),
        ClientResponseV::TimedOut { operation, index, observed_nodes } => seq![3u8] + (seq![
            operation_tag(operation),
        ] + (wire_fields::option_u64_bytes(index) + bytes::le64(observed_nodes as u64))),
        ClientResponseV::Overloaded { pending_entries, limit } => seq![4u8] + (bytes::le64(
            pending_entries,
        ) + bytes::le64(limit)),
        ClientResponseV::RouteError { message } => seq![5u8] + wire_fields::text_bytes(message),
        ClientResponseV::InvalidQuery { message } => seq![6u8] + wire_fields::text_bytes(message),
        ClientResponseV::SqlRows { columns, rows, consistency } => seq![7u8] + (bytes::le64(
            columns.len() as u64,
        ) + (wire_fields::texts_bytes(columns) + (bytes::le64(rows.len() as u64) + (rows_bytes(
            rows,
        ) + seq![consistency_tag(consistency)])))),
        ClientResponseV::SqlWriteResult { affected_rows, last_index, committed_nodes } => seq![8u8]
            + (bytes::le64(affected_rows as u64) + (wire_fields::option_u64_bytes(last_index)
            + bytes::le64(committed_nodes as u64))),
        ClientResponseV::InternalError { message } => seq![9u8] + wire_fields::text_bytes(message),
    }
}

/// A response: its id, where it comes from and goes to, its body.
pub open spec fn response_bytes(response: ResponseEnvelopeV) -> Seq<u8> {
    bytes::le64(response.request_id) + (address_bytes(response.from) + (address_bytes(response.to)
        + response_body_bytes(response.response)))
}

#[verifier::opaque]
pub open spec fn address_field(b: Seq<u8>, p: int) -> Field<AddressV> {
    match wire_fields::u64_field(b, p, "node_address.node_id"@) {
        Err(message) => Err(message),
        Ok((node_id, q)) => match wire_fields::text_field(b, q, "node_address.endpoint"@) {
            Err(message) => Err(message),
            Ok((endpoint, end)) => Ok((AddressV { node_id, endpoint }, end)),
        },
    }
}

#[verifier::opaque]
pub open spec fn consistency_field(b: Seq<u8>, p: int) -> Field<ReadConsistency> {
    match wire_fields::u8_field(b, p, "read_consistency"@) {
        Err(message) => Err(message),
        Ok((tag, end)) => if tag == 0 {
            Ok((ReadConsistency::Eventual, end))
        } else if tag == 1 {
            Ok((ReadConsistency::Linearizable, end))
        } else {
            Err("invalid read consistency tag "@ + text::decimal(tag as nat))
        },
    }
}

#[verifier::opaque]
pub open spec fn operation_field(b: Seq<u8>, p: int) -> Field<TimeoutOperation> {
    match wire_fields::u8_field(b, p, "timeout_operation"@) {
        Err(message) => Err(message),
        Ok((tag, end)) => if tag == 0 {
            Ok((TimeoutOperation::Proposal, end))
        } else if tag == 1 {
            Ok((TimeoutOperation::LinearizableRead, end))
        } else {
            Err("invalid timeout operation tag "@ + text::decimal(tag as nat))
        },
    }
}

#[verifier::opaque]
pub open spec fn command_field(b: Seq<u8>, p: int) -> Field<CommandV> {
    match wire_fields::u8_field(b, p, "command.tag"@) {
        Err(message) => Err(message),
        Ok((tag, q)) => if tag == 0 {
            match wire_fields::text_field(b, q, "command.put.key"@) {
                Err(message) => Err(message),
                Ok((key, q)) => match wire_fields::text_field(b, q, "command.put.value"@) {
                    Err(message) => Err(message),
                    Ok((value, end)) => Ok((CommandV::Put { key, value }, end)),
                },
            }
        } else if tag == 1 {
            match wire_fields::text_field(b, q, "command.delete.key"@) {
                Err(message) => Err(message),
                Ok((key, end)) => Ok((CommandV::Delete { key }, end)),
            }
        } else {
            Err("invalid command tag "@ + text::decimal(tag as nat))
        },
    }
}

#[verifier::opaque]
pub open spec fn request_body_field(b: Seq<u8>, p: int) -> Field<ClientRequestV> {
    match wire_fields::u8_field(b, p, "request.tag"@) {
        Err(message) => Err(message),
        Ok((tag, q)) => if tag == 0 {
            match command_field(b, q) {
                Err(message) => Err(message),
                Ok((command, end)) => Ok((ClientRequestV::Write(command), end)),
            }
        } else if tag == 1 {
            match wire_fields::text_field(b, q, "request.read.key"@) {
                Err(message) => Err(message),
                Ok((key, q)) => match consistency_field(b, q) {
                    Err(message) => Err(message),
                    Ok((consistency, end)) => Ok(
                        (ClientRequestV::Read { key, consistency }, end),
                    ),
                },
            }
        } else if tag == 2 {
            match wire_fields::text_field(b, q, "request.sql.query"@) {
                Err(message) => Err(message),
                Ok((query, q)) => match consistency_field(b, q) {
                    Err(message) => Err(message),
                    Ok((read_consistency, end)) => Ok(
                        (ClientRequestV::Sql { query, read_consistency }, end),
                    ),
                },
            }
        } else {
            Err("invalid request tag "@ + text::decimal(tag as nat))
        },
    }
}

/// The request that the bytes are, all of them.
#[verifier::opaque]
pub open spec fn decoded_request(b: Seq<u8>) -> Result<RequestEnvelopeV, Seq<char>> {
    match wire_fields::u64_field(b, 0, "request.request_id"@) {
        Err(message) => Err(message),
        Ok((request_id, q)) => match address_field(b, q) {
            Err(message) => Err(message),
            Ok((from, q)) => match address_field(b, q) {
                Err(message) => Err(message),
                Ok((to, q)) => match wire_fields::option_u64_field(
                    b,
                    q,
                    "request.timeout_ticks"@,
                ) {
                    Err(message) => Err(message),
                    Ok((timeout_ticks, q)) => match request_body_field(b, q) {
                        Err(message) => Err(message),
                        Ok((request, end)) => if end != b.len() {
                            Err(wire_fields::trailing_message((b.len() - end) as nat))
                        } else {
                            Ok(RequestEnvelopeV { request_id, from, to, timeout_ticks, request })
                        },
                    },
                },
            },
        },
    }
}

/// A number that must fit the machine's sizes.
#[verifier::opaque]
pub open spec fn count_field(b: Seq<u8>, p: int, field: Seq<char>) -> Field<usize> {
    match wire_fields::u64_field(b, p, field) {
        Err(message) => Err(message),
        Ok((value, end)) => if value > usize::MAX {
            Err(field + " does not fit in usize"@)
        } else {
            Ok((value as usize, end))
        },
    }
}

#[verifier::opaque]
pub open spec fn write_committed_field(b: Seq<u8>, p: int) -> Field<ClientResponseV> {
    match wire_fields::u64_field(b, p, "response.write_committed.index"@) {
        Err(message) => Err(message),
        Ok((index, q)) => match count_field(b, q, "response.write_committed.committed_nodes"@) {
            Err(message) => Err(message),
            Ok((committed_nodes, end)) => Ok(
                (ClientResponseV::WriteCommitted { index, committed_nodes }, end),
            ),
        },
    }
}

#[verifier::opaque]
pub open spec fn read_result_field(b: Seq<u8>, p: int) -> Field<ClientResponseV> {
    match wire_fields::option_text_field(b, p, "response.read.value"@) {
        Err(message) => Err(message),
        Ok((value, q)) => match consistency_field(b, q) {
            Err(message) => Err(message),
            Ok((consistency, end)) => Ok((ClientResponseV::ReadResult { value, consistency }, end)),
        },
    }
}

#[verifier::opaque]
pub open spec fn timed_out_field(b: Seq<u8>, p: int) -> Field<ClientResponseV> {
    match operation_field(b, p) {
        Err(message) => Err(message),
        Ok((operation, q)) => match wire_fields::option_u64_field(
            b,
            q,
            "response.timed_out.index"@,
        ) {
            Err(message) => Err(message),
            Ok((index, q)) => match count_field(b, q, "response.timed_out.observed_nodes"@) {
                Err(message) => Err(message),
                Ok((observed_nodes, end)) => Ok(
                    (ClientResponseV::TimedOut { operation, index, observed_nodes }, end),
                ),
            },
        },
    }
}

#[verifier::opaque]
pub open spec fn overloaded_field(b: Seq<u8>, p: int) -> Field<ClientResponseV> {
    match wire_fields::u64_field(b, p, "response.overloaded.pending_entries"@) {
        Err(message) => Err(message),
        Ok((pending_entries, q)) => match wire_fields::u64_field(
            b,
            q,
            "response.overloaded.limit"@,
        ) {
            Err(message) => Err(message),
            Ok((limit, end)) => Ok((ClientResponseV::Overloaded { pending_entries, limit }, end)),
        },
    }
}

#[verifier::opaque]
pub open spec fn row_field(b: Seq<u8>, p: int) -> Field<Seq<Seq<char>>> {
    match wire_fields::len_field(b, p, "response.sql_rows.row.columns"@) {
        Err(message) => Err(message),
        Ok((n, q)) => wire_fields::texts_field(b, q, n as nat, "response.sql_rows.row.value"@),
    }
}

pub open spec fn rows_field(b: Seq<u8>, p: int, n: nat) -> Field<Seq<Seq<Seq<char>>>>
    decreases n,
{
    if n == 0 {
        Ok((Seq::empty(), p))
    } else {
        match row_field(b, p) {
            Err(message) => Err(message),
            Ok((row, q)) => match rows_field(b, q, (n - 1) as nat) {
                Err(message) => Err(message),
                Ok((rest, end)) => Ok((seq![row] + rest, end)),
            },
        }
    }
}

#[verifier::opaque]
pub open spec fn sql_rows_field(b: Seq<u8>, p: int) -> Field<ClientResponseV> {
    match wire_fields::len_field(b, p, "response.sql_rows.columns"@) {
        Err(message) => Err(message),
        Ok((n, q)) => match wire_fields::texts_field(
            b,
            q,
            n as nat,
            "response.sql_rows.column"@,
        ) {
            Err(message) => Err(message),
            Ok((columns, q)) => match wire_fields::len_field(b, q, "response.sql_rows.rows"@) {
                Err(message) => Err(message),
                Ok((m, q)) => match rows_field(b, q, m as nat) {
                    Err(message) => Err(message),
                    Ok((rows, q)) => match consistency_field(b, q) {
                        Err(message) => Err(message),
                        Ok((consistency, end)) => Ok(
                            (ClientResponseV::SqlRows { columns, rows, consistency }, end),
                        ),
                    },
                },
            },
        },
    }
}

#[verifier::opaque]
pub open spec fn sql_write_field(b: Seq<u8>, p: int) -> Field<ClientResponseV> {
    match count_field(b, p, "response.sql_write.affected_rows"@) {
        Err(message) => Err(message),
        Ok((affected_rows, q)) => match wire_fields::option_u64_field(
            b,
            q,
            "response.sql_write.last_index"@,
        ) {
            Err(message) => Err(message),
            Ok((last_index, q)) => match count_field(
                b,
                q,
                "response.sql_write.committed_nodes"@,
            ) {
                Err(message) => Err(message),
                Ok((committed_nodes, end)) => Ok(
                    (
                        ClientResponseV::SqlWriteResult {
                            affected_rows,
                            last_index,
                            committed_nodes,
                        },
                        end,
                    ),
                ),
            },
        },
    }
}

/// A response of one of the kinds that carry nothing but a text or an address.
#[verifier::opaque]
pub open spec fn plain_response_field(b: Seq<u8>, p: int, tag: u8) -> Field<ClientResponseV> {
    if tag == 2 {
        match address_field(b, p) {
            Err(message) => Err(message),
            Ok((leader, end)) => Ok((ClientResponseV::Redirect { leader }, end)),
        }
    } else if tag == 5 {
        match wire_fields::text_field(b, p, "response.route_error.message"@) {
            Err(message) => Err(message),
            Ok((message, end)) => Ok((ClientResponseV::RouteError { message }, end)),
        }
    } else if tag == 6 {
        match wire_fields::text_field(b, p, "response.invalid_query.message"@) {
            Err(message) => Err(message),
            Ok((message, end)) => Ok((ClientResponseV::InvalidQuery { message }, end)),
        }
    } else {
        match wire_fields::text_field(b, p, "response.internal_error.message"@) {
            Err(message) => Err(message),
            Ok((message, end)) => Ok((ClientResponseV::InternalError { message }, end)),
        }
    }
}

#[verifier::opaque]
pub open spec fn response_body_field(b: Seq<u8>, p: int) -> Field<ClientResponseV> {
    match wire_fields::u8_field(b, p, "response.tag"@) {
        Err(message) => Err(message),
        Ok((tag, q)) => if tag == 0 {
            write_committed_field(b, q)
        } else if tag == 1 {
            read_result_field(b, q)
        } else if tag == 3 {
            timed_out_field(b, q)
        } else if tag == 4 {
            overloaded_field(b, q)
        } else if tag == 7 {
            sql_rows_field(b, q)
        } else if tag == 8 {
            sql_write_field(b, q)
        } else if tag == 2 || tag == 5 || tag == 6 || tag == 9 {
            plain_response_field(b, q, tag)
        } else {
            Err("invalid response tag "@ + text::decimal(tag as nat))
        },
    }
}

/// The response that the bytes are, all of them.
#[verifier::opaque]
pub open spec fn decoded_response(b: Seq<u8>) -> Result<ResponseEnvelopeV, Seq<char>> {
    match wire_fields::u64_field(b, 0, "response.request_id"@) {
        Err(message) => Err(message),
        Ok((request_id, q)) => match address_field(b, q) {
            Err(message) => Err(message),
            Ok((from, q)) => match address_field(b, q) {
                Err(message) => Err(message),
                Ok((to, q)) => match response_body_field(b, q) {
                    Err(message) => Err(message),
                    Ok((response, end)) => if end != b.len() {
                        Err(wire_fields::trailing_message((b.len() - end) as nat))
                    } else {
                        Ok(ResponseEnvelopeV { request_id, from, to, response })
                    },
                },
            },
        },
    }
}

/// Reading and writing of messages.
pub struct GrpcWireCodec;

fn bad_tag(kind: &str, tag: u8) -> (r: GrpcCodecError)
    ensures
        r@ == GrpcCodecErrorV::InvalidPayload(kind@ + text::decimal(tag as nat)),
{
    GrpcCodecError::InvalidPayload(join2(kind, decimal_text(tag as u128).as_str()))
}

impl GrpcWireCodec {
    fn encode_node_address(encoder: &mut BinaryEncoder, address: &NodeAddress)
        ensures
            final(encoder).bytes@ == old(encoder).bytes@ + address_bytes(address@),
    {
        proof {
            reveal(address_bytes);
        }
        encoder.write_u64(address.node_id);
        encoder.write_string(address.endpoint.as_str());
        assert(encoder.bytes@ =~= old(encoder).bytes@ + address_bytes(address@));
    }

    fn decode_node_address(decoder: &mut BinaryDecoder<'_>) -> (r: Result<
        NodeAddress,
        GrpcCodecError,
    >)
        requires
            old(decoder).wf(),
        ensures
            wire_fields::reads(
                *old(decoder),
                *final(decoder),
                r,
                |v: NodeAddress| v@,
                address_field(old(decoder).bytes@, old(decoder).cursor as int),
            ),
    {
        proof {
            reveal(address_field);
        }
        let node_id: u64 = match decoder.read_u64("node_address.node_id") {
            Ok(node_id) => node_id,
            Err(error) => {
                return Err(error);
            },
        };
        match decoder.read_string("node_address.endpoint") {
            Ok(endpoint) => Ok(NodeAddress { node_id, endpoint }),
            Err(error) => Err(error),
        }
    }

    fn encode_read_consistency(encoder: &mut BinaryEncoder, consistency: ReadConsistency)
        ensures
            final(encoder).bytes@ == old(encoder).bytes@ + seq![consistency_tag(consistency)],
    {
        let tag: u8 = match consistency {
            ReadConsistency::Eventual => 0,
            ReadConsistency::Linearizable => 1,
        };
        encoder.write_u8(tag);
    }

    fn decode_read_consistency(decoder: &mut BinaryDecoder<'_>) -> (r: Result<
        ReadConsistency,
        GrpcCodecError,
    >)
        requires
            old(decoder).wf(),
        ensures
            wire_fields::reads(
                *old(decoder),
                *final(decoder),
                r,
                |v: ReadConsistency| v,
                consistency_field(old(decoder).bytes@, old(decoder).cursor as int),
            ),
    {
        proof {
            reveal(consistency_field);
        }
        let tag: u8 = match decoder.read_u8("read_consistency") {
            Ok(tag) => tag,
            Err(error) => {
                return Err(error);
            },
        };
        if tag == 0 {
            Ok(ReadConsistency::Eventual)
        } else if tag == 1 {
            Ok(ReadConsistency::Linearizable)
        } else {
            Err(bad_tag("invalid read consistency tag ", tag))
        }
    }

    fn encode_timeout_operation(encoder: &mut BinaryEncoder, operation: TimeoutOperation)
        ensures
            final(encoder).bytes@ == old(encoder).bytes@ + seq![operation_tag(operation)],
    {
        let tag: u8 = match operation {
            TimeoutOperation::Proposal => 0,
            TimeoutOperation::LinearizableRead => 1,
        };
        encoder.write_u8(tag);
    }

    fn decode_timeout_operation(decoder: &mut BinaryDecoder<'_>) -> (r: Result<
        TimeoutOperation,
        GrpcCodecError,
    >)
        requires
            old(decoder).wf(),
        ensures
            wire_fields::reads(
                *old(decoder),
                *final(decoder),
                r,
                |v: TimeoutOperation| v,
                operation_field(old(decoder).bytes@, old(decoder).cursor as int),
            ),
    {
        proof {
            reveal(operation_field);
        }
        let tag: u8 = match decoder.read_u8("timeout_operation") {
            Ok(tag) => tag,
            Err(error) => {
                return Err(error);
            },
        };
        if tag == 0 {
            Ok(TimeoutOperation::Proposal)
        } else if tag == 1 {
            Ok(TimeoutOperation::LinearizableRead)
        } else {
            Err(bad_tag("invalid timeout operation tag ", tag))
        }
    }

    fn encode_command(encoder: &mut BinaryEncoder, command: &Command)
        ensures
            final(encoder).bytes@ == old(encoder).bytes@ + command_bytes(command@),
    {
        proof {
            reveal(command_bytes);
        }
        match command {
            Command::Put { key, value } => {
                encoder.write_u8(0);
                encoder.write_string(key.as_str());
                encoder.write_string(value.as_str());
            },
            Command::Delete { key } => {
                encoder.write_u8(1);
                encoder.write_string(key.as_str());
            },
        }
        assert(encoder.bytes@ =~= old(encoder).bytes@ + command_bytes(command@));
    }

    fn decode_command(decoder: &mut BinaryDecoder<'_>) -> (r: Result<Command, GrpcCodecError>)
        requires
            old(decoder).wf(),
        ensures
            wire_fields::reads(
                *old(decoder),
                *final(decoder),
                r,
                |v: Command| v@,
                command_field(old(decoder).bytes@, old(decoder).cursor as int),
            ),
    {
        proof {
            reveal(command_field);
        }
        let tag: u8 = match decoder.read_u8("command.tag") {
            Ok(tag) => tag,
            Err(error) => {
                return Err(error);
            },
        };
        if tag == 0 {
            let key = match decoder.read_string("command.put.key") {
                Ok(key) => key,
                Err(error) => {
                    return Err(error);
                },
            };
            match decoder.read_string("command.put.value") {
                Ok(value) => Ok(Command::Put { key, value }),
                Err(error) => Err(error),
            }
        } else if tag == 1 {
            match decoder.read_string("command.delete.key") {
                Ok(key) => Ok(Command::Delete { key }),
                Err(error) => Err(error),
            }
        } else {
            Err(bad_tag("invalid command tag ", tag))
        }
    }

    fn encode_request_body(encoder: &mut BinaryEncoder, request: &ClientRequest)
        ensures
            final(encoder).bytes@ == old(encoder).bytes@ + request_body_bytes(request@),
    {
        proof {
            reveal(request_body_bytes);
        }
        match request {
            ClientRequest::Write(command) => {
                encoder.write_u8(0);
                Self::encode_command(encoder, command);
            },
            ClientRequest::Read { key, consistency } => {
                encoder.write_u8(1);
                encoder.write_string(key.as_str());
                Self::encode_read_consistency(encoder, *consistency);
            },
            ClientRequest::Sql { query, read_consistency } => {
                encoder.write_u8(2);
                encoder.write_string(query.as_str());
                Self::encode_read_consistency(encoder, *read_consistency);
            },
        }
        assert(encoder.bytes@ =~= old(encoder).bytes@ + request_body_bytes(request@));
    }

    /// Writes a request.
    pub fn encode_request(request: &RequestEnvelope) -> (r: Result<Vec<u8>, GrpcCodecError>)
        ensures
            r matches Ok(encoded) && encoded@ == request_bytes(request@),
    {
        let mut encoder = BinaryEncoder::new();
        encoder.write_u64(request.request_id);
        Self::encode_node_address(&mut encoder, &request.from);
        Self::encode_node_address(&mut encoder, &request.to);
        encoder.write_option_u64(request.timeout_ticks);
        Self::encode_request_body(&mut encoder, &request.request);
        assert(encoder.bytes@ =~= request_bytes(request@));
        Ok(encoder.into_bytes())
    }

    fn decode_request_body(decoder: &mut BinaryDecoder<'_>) -> (r: Result<
        ClientRequest,
        GrpcCodecError,
    >)
        requires
            old(decoder).wf(),
        ensures
            wire_fields::reads(
                *old(decoder),
                *final(decoder),
                r,
                |v: ClientRequest| v@,
                request_body_field(old(decoder).bytes@, old(decoder).cursor as int),
            ),
    {
        proof {
            reveal(request_body_field);
        }
        let tag: u8 = match decoder.read_u8("request.tag") {
            Ok(tag) => tag,
            Err(error) => {
                return Err(error);
            },
        };
        if tag == 0 {
            match Self::decode_command(decoder) {
                Ok(command) => Ok(ClientRequest::Write(command)),
                Err(error) => Err(error),
            }
        } else if tag == 1 {
            let key = match decoder.read_string("request.read.key") {
                Ok(key) => key,
                Err(error) => {
                    return Err(error);
                },
            };
            match Self::decode_read_consistency(decoder) {
                Ok(consistency) => Ok(ClientRequest::Read { key, consistency }),
                Err(error) => Err(error),
            }
        } else if tag == 2 {
            let query = match decoder.read_string("request.sql.query") {
                Ok(query) => query,
                Err(error) => {
                    return Err(error);
                },
            };
            match Self::decode_read_consistency(decoder) {
                Ok(read_consistency) => Ok(ClientRequest::Sql { query, read_consistency }),
                Err(error) => Err(error),
            }
        } else {
            Err(bad_tag("invalid request tag ", tag))
        }
    }

    /// Reads a request.
    pub fn decode_request(b: &[u8]) -> (r: Result<RequestEnvelope, GrpcCodecError>)
        ensures
            match decoded_request(b@) {
                Ok(request) => r matches Ok(found) && found@ == request,
                Err(message) => r matches Err(e) && e@ == GrpcCodecErrorV::InvalidPayload(message),
            },
    {
        proof {
            reveal(decoded_request);
        }
        let mut decoder = BinaryDecoder::new(b);
        let request_id: u64 = match decoder.read_u64("request.request_id") {
            Ok(request_id) => request_id,
            Err(error) => {
                return Err(error);
            },
        };
        let from = match Self::decode_node_address(&mut decoder) {
            Ok(from) => from,
            Err(error) => {
                return Err(error);
            },
        };
        let to = match Self::decode_node_address(&mut decoder) {
            Ok(to) => to,
            Err(error) => {
                return Err(error);
            },
        };
        let timeout_ticks = match decoder.read_option_u64("request.timeout_ticks") {
            Ok(timeout_ticks) => timeout_ticks,
            Err(error) => {
                return Err(error);
            },
        };
        let request = match Self::decode_request_body(&mut decoder) {
            Ok(request) => request,
            Err(error) => {
                return Err(error);
            },
        };
        match decoder.finish() {
            Ok(()) => Ok(RequestEnvelope { request_id, from, to, timeout_ticks, request }),
            Err(error) => Err(error),
        }
    }

    fn encode_rows(encoder: &mut BinaryEncoder, rows: &Vec<Vec<String>>)
        ensures
            final(encoder).bytes@ == old(encoder).bytes@ + rows_bytes(api_types::rows_view(rows@)),
    {
        let ghost before = encoder.bytes@;
        let ghost all = api_types::rows_view(rows@);
        let mut i: usize = 0;
        assert(before =~= before + rows_bytes(all.take(0)));
        while i < rows.len()
            invariant
                i <= rows@.len(),
                all == api_types::rows_view(rows@),
                encoder.bytes@ == before + rows_bytes(all.take(i as int)),
            decreases rows@.len() - i,
        {
            proof {
                reveal(row_bytes);
            }
            assert(all.take(i + 1).drop_last() =~= all.take(i as int));
            assert(all.take(i + 1).last() == text::texts(rows@[i as int]@));
            encoder.write_len(rows[i].len());
            encoder.write_strings(&rows[i]);
            assert(encoder.bytes@ =~= before + rows_bytes(all.take(i + 1)));
            i += 1;
        }
        assert(all.take(i as int) =~= all);
    }

    fn encode_response_body(encoder: &mut BinaryEncoder, response: &ClientResponse)
        ensures
            final(encoder).bytes@ == old(encoder).bytes@ + response_body_bytes(response@),
    {
        proof {
            reveal(response_body_bytes);
        }
        match response {
            ClientResponse::WriteCommitted { index, committed_nodes } => {
                encoder.write_u8(0);
                encoder.write_u64(*index);
                encoder.write_u64(*committed_nodes as u64);
            },
            ClientResponse::ReadResult { value, consistency } => {
                encoder.write_u8(1);
                encoder.write_option_string(value);
                Self::encode_read_consistency(encoder, *consistency);
            },
            ClientResponse::Redirect { leader } => {
                encoder.write_u8(2);
                Self::encode_node_address(encoder, leader);
            },
            ClientResponse::TimedOut { operation, index, observed_nodes } => {
                encoder.write_u8(3);
                Self::encode_timeout_operation(encoder, *operation);
                encoder.write_option_u64(*index);
                encoder.write_u64(*observed_nodes as u64);
            },
            ClientResponse::Overloaded { pending_entries, limit } => {
                encoder.write_u8(4);
                encoder.write_u64(*pending_entries);
                encoder.write_u64(*limit);
            },
            ClientResponse::RouteError { message } => {
                encoder.write_u8(5);
                encoder.write_string(message.as_str());
            },
            ClientResponse::InvalidQuery { message } => {
                encoder.write_u8(6);
                encoder.write_string(message.as_str());
            },
            ClientResponse::SqlRows { columns, rows, consistency } => {
                encoder.write_u8(7);
                encoder.write_len(columns.len());
                encoder.write_strings(columns);
                encoder.write_len(rows.len());
                Self::encode_rows(encoder, rows);
                Self::encode_read_consistency(encoder, *consistency);
            },
            ClientResponse::SqlWriteResult { affected_rows, last_index, committed_nodes } => {
                encoder.write_u8(8);
                encoder.write_u64(*affected_rows as u64);
                encoder.write_option_u64(*last_index);
                encoder.write_u64(*committed_nodes as u64);
            },
            ClientResponse::InternalError { message } => {
                encoder.write_u8(9);
                encoder.write_string(message.as_str());
            },
        }
        assert(encoder.bytes@ =~= old(encoder).bytes@ + response_body_bytes(response@));
    }

    /// Writes a response.
    pub fn encode_response(response: &ResponseEnvelope) -> (r: Result<Vec<u8>, GrpcCodecError>)
        ensures
            r matches Ok(encoded) && encoded@ == response_bytes(response@),
    {
        let mut encoder = BinaryEncoder::new();
        encoder.write_u64(response.request_id);
        Self::encode_node_address(&mut encoder, &response.from);
        Self::encode_node_address(&mut encoder, &response.to);
        Self::encode_response_body(&mut encoder, &response.response);
        assert(encoder.bytes@ =~= response_bytes(response@));
        Ok(encoder.into_bytes())
    }

    fn decode_count(decoder: &mut BinaryDecoder<'_>, field: &str) -> (r: Result<
        usize,
        GrpcCodecError,
    >)
        requires
            old(decoder).wf(),
        ensures
            wire_fields::reads(
                *old(decoder),
                *final(decoder),
                r,
                |v: usize| v,
                count_field(old(decoder).bytes@, old(decoder).cursor as int, field@),
            ),
    {
        proof {
            reveal(count_field);
        }
        let value: u64 = match decoder.read_u64(field) {
            Ok(value) => value,
            Err(error) => {
                return Err(error);
            },
        };
        if value > usize::MAX as u64 {
            return Err(GrpcCodecError::InvalidPayload(join2(field, " does not fit in usize")));
        }
        Ok(value as usize)
    }

    fn decode_rows(decoder: &mut BinaryDecoder<'_>, count: usize) -> (r: Result<
        Vec<Vec<String>>,
        GrpcCodecError,
    >)
        requires
            old(decoder).wf(),
        ensures
            wire_fields::reads(
                *old(decoder),
                *final(decoder),
                r,
                |v: Vec<Vec<String>>| api_types::rows_view(v@),
                rows_field(old(decoder).bytes@, old(decoder).cursor as int, count as nat),
            ),
    {
        let mut rows: Vec<Vec<String>> = Vec::new();
        let mut i: usize = 0;
        let ghost b = decoder.bytes@;
        let ghost start = decoder.cursor as int;
        let ghost whole = rows_field(b, start, count as nat);
        proof {
            if whole is Ok {
                assert(whole->Ok_0.0 =~= api_types::rows_view(rows@) + whole->Ok_0.0);
            }
        }
        while i < count
            invariant
                i <= count,
                decoder.wf(),
                decoder.bytes == old(decoder).bytes,
                b == decoder.bytes@,
                start == old(decoder).cursor,
                whole == rows_field(b, start, count as nat),
                whole == match rows_field(b, decoder.cursor as int, (count - i) as nat) {
                    Ok((rest, end)) => Ok::<(Seq<Seq<Seq<char>>>, int), Seq<char>>(
                        (api_types::rows_view(rows@) + rest, end),
                    ),
                    Err(message) => Err(message),
                },
            decreases count - i,
        {
            proof {
                reveal(row_field);
            }
            let ghost seen = api_types::rows_view(rows@);
            let n: usize = match decoder.read_len("response.sql_rows.row.columns") {
                Ok(n) => n,
                Err(error) => {
                    return Err(error);
                },
            };
            let row = match decoder.read_strings(n, "response.sql_rows.row.value") {
                Ok(row) => row,
                Err(error) => {
                    return Err(error);
                },
            };
            let ghost v = text::texts(row@);
            rows.push(row);
            proof {
                assert(api_types::rows_view(rows@) =~= seen.push(v));
                let tail = rows_field(b, decoder.cursor as int, (count - i - 1) as nat);
                if tail is Ok {
                    assert(seen + (seq![v] + tail->Ok_0.0) =~= seen.push(v) + tail->Ok_0.0);
                }
            }
            i += 1;
        }
        assert(api_types::rows_view(rows@) + Seq::<Seq<Seq<char>>>::empty()
            =~= api_types::rows_view(rows@));
        Ok(rows)
    }

    fn decode_sql_rows(decoder: &mut BinaryDecoder<'_>) -> (r: Result<
        ClientResponse,
        GrpcCodecError,
    >)
        requires
            old(decoder).wf(),
        ensures
            wire_fields::reads(
                *old(decoder),
                *final(decoder),
                r,
                |v: ClientResponse| v@,
                sql_rows_field(old(decoder).bytes@, old(decoder).cursor as int),
            ),
    {
        proof {
            reveal(sql_rows_field);
        }
        let column_count: usize = match decoder.read_len("response.sql_rows.columns") {
            Ok(n) => n,
            Err(error) => {
                return Err(error);
            },
        };
        let columns = match decoder.read_strings(column_count, "response.sql_rows.column") {
            Ok(columns) => columns,
            Err(error) => {
                return Err(error);
            },
        };
        let row_count: usize = match decoder.read_len("response.sql_rows.rows") {
            Ok(n) => n,
            Err(error) => {
                return Err(error);
            },
        };
        let rows = match Self::decode_rows(decoder, row_count) {
            Ok(rows) => rows,
            Err(error) => {
                return Err(error);
            },
        };
        match Self::decode_read_consistency(decoder) {
            Ok(consistency) => Ok(ClientResponse::SqlRows { columns, rows, consistency }),
            Err(error) => Err(error),
        }
    }

    fn decode_timed_out(decoder: &mut BinaryDecoder<'_>) -> (r: Result<
        ClientResponse,
        GrpcCodecError,
    >)
        requires
            old(decoder).wf(),
        ensures
            wire_fields::reads(
                *old(decoder),
                *final(decoder),
                r,
                |v: ClientResponse| v@,
                timed_out_field(old(decoder).bytes@, old(decoder).cursor as int),
            ),
    {
        proof {
            reveal(timed_out_field);
        }
        let operation = match Self::decode_timeout_operation(decoder) {
            Ok(operation) => operation,
            Err(error) => {
                return Err(error);
            },
        };
        let index = match decoder.read_option_u64("response.timed_out.index") {
            Ok(index) => index,
            Err(error) => {
                return Err(error);
            },
        };
        match Self::decode_count(decoder, "response.timed_out.observed_nodes") {
            Ok(observed_nodes) => Ok(
                ClientResponse::TimedOut { operation, index, observed_nodes },
            ),
            Err(error) => Err(error),
        }
    }

    fn decode_sql_write(decoder: &mut BinaryDecoder<'_>) -> (r: Result<
        ClientResponse,
        GrpcCodecError,
    >)
        requires
            old(decoder).wf(),
        ensures
            wire_fields::reads(
                *old(decoder),
                *final(decoder),
                r,
                |v: ClientResponse| v@,
                sql_write_field(old(decoder).bytes@, old(decoder).cursor as int),
            ),
    {
        proof {
            reveal(sql_write_field);
        }
        let affected_rows: usize = match Self::decode_count(
            decoder,
            "response.sql_write.affected_rows",
        ) {
            Ok(n) => n,
            Err(error) => {
                return Err(error);
            },
        };
        let last_index = match decoder.read_option_u64("response.sql_write.last_index") {
            Ok(index) => index,
            Err(error) => {
                return Err(error);
            },
        };
        match Self::decode_count(decoder, "response.sql_write.committed_nodes") {
            Ok(committed_nodes) => Ok(
                ClientResponse::SqlWriteResult { affected_rows, last_index, committed_nodes },
            ),
            Err(error) => Err(error),
        }
    }

    fn decode_write_committed(decoder: &mut BinaryDecoder<'_>) -> (r: Result<
        ClientResponse,
        GrpcCodecError,
    >)
        requires
            old(decoder).wf(),
        ensures
            wire_fields::reads(
                *old(decoder),
                *final(decoder),
                r,
                |v: ClientResponse| v@,
                write_committed_field(old(decoder).bytes@, old(decoder).cursor as int),
            ),
    {
        proof {
            reveal(write_committed_field);
        }
        let index: u64 = match decoder.read_u64("response.write_committed.index") {
            Ok(index) => index,
            Err(error) => {
                return Err(error);
            },
        };
        match Self::decode_count(decoder, "response.write_committed.committed_nodes") {
            Ok(committed_nodes) => Ok(ClientResponse::WriteCommitted { index, committed_nodes }),
            Err(error) => Err(error),
        }
    }

    fn decode_read_result(decoder: &mut BinaryDecoder<'_>) -> (r: Result<
        ClientResponse,
        GrpcCodecError,
    >)
        requires
            old(decoder).wf(),
        ensures
            wire_fields::reads(
                *old(decoder),
                *final(decoder),
                r,
                |v: ClientResponse| v@,
                read_result_field(old(decoder).bytes@, old(decoder).cursor as int),
            ),
    {
        proof {
            reveal(read_result_field);
        }
        let value = match decoder.read_option_string("response.read.value") {
            Ok(value) => value,
            Err(error) => {
                return Err(error);
            },
        };
        match Self::decode_read_consistency(decoder) {
            Ok(consistency) => Ok(ClientResponse::ReadResult { value, consistency }),
            Err(error) => Err(error),
        }
    }

    fn decode_overloaded(decoder: &mut BinaryDecoder<'_>) -> (r: Result<
        ClientResponse,
        GrpcCodecError,
    >)
        requires
            old(decoder).wf(),
        ensures
            wire_fields::reads(
                *old(decoder),
                *final(decoder),
                r,
                |v: ClientResponse| v@,
                overloaded_field(old(decoder).bytes@, old(decoder).cursor as int),
            ),
    {
        proof {
            reveal(overloaded_field);
        }
        let pending_entries: u64 = match decoder.read_u64("response.overloaded.pending_entries") {
            Ok(n) => n,
            Err(error) => {
                return Err(error);
            },
        };
        match decoder.read_u64("response.overloaded.limit") {
            Ok(limit) => Ok(ClientResponse::Overloaded { pending_entries, limit }),
            Err(error) => Err(error),
        }
    }

    fn decode_plain_response(decoder: &mut BinaryDecoder<'_>, tag: u8) -> (r: Result<
        ClientResponse,
        GrpcCodecError,
    >)
        requires
            old(decoder).wf(),
        ensures
            wire_fields::reads(
                *old(decoder),
                *final(decoder),
                r,
                |v: ClientResponse| v@,
                plain_response_field(old(decoder).bytes@, old(decoder).cursor as int, tag),
            ),
    {
        proof {
            reveal(plain_response_field);
        }
        if tag == 2 {
            match Self::decode_node_address(decoder) {
                Ok(leader) => Ok(ClientResponse::Redirect { leader }),
                Err(error) => Err(error),
            }
        } else if tag == 5 {
            match decoder.read_string("response.route_error.message") {
                Ok(message) => Ok(ClientResponse::RouteError { message }),
                Err(error) => Err(error),
            }
        } else if tag == 6 {
            match decoder.read_string("response.invalid_query.message") {
                Ok(message) => Ok(ClientResponse::InvalidQuery { message }),
                Err(error) => Err(error),
            }
        } else {
            match decoder.read_string("response.internal_error.message") {
                Ok(message) => Ok(ClientResponse::InternalError { message }),
                Err(error) => Err(error),
            }
        }
    }

    fn decode_response_body(decoder: &mut BinaryDecoder<'_>) -> (r: Result<
        ClientResponse,
        GrpcCodecError,
    >)
        requires
            old(decoder).wf(),
        ensures
            wire_fields::reads(
                *old(decoder),
                *final(decoder),
                r,
                |v: ClientResponse| v@,
                response_body_field(old(decoder).bytes@, old(decoder).cursor as int),
            ),
    {
        proof {
            reveal(response_body_field);
        }
        let tag: u8 = match decoder.read_u8("response.tag") {
            Ok(tag) => tag,
            Err(error) => {
                return Err(error);
            },
        };
        if tag == 0 {
            Self::decode_write_committed(decoder)
        } else if tag == 1 {
            Self::decode_read_result(decoder)
        } else if tag == 3 {
            Self::decode_timed_out(decoder)
        } else if tag == 4 {
            Self::decode_overloaded(decoder)
        } else if tag == 7 {
            Self::decode_sql_rows(decoder)
        } else if tag == 8 {
            Self::decode_sql_write(decoder)
        } else if tag == 2 || tag == 5 || tag == 6 || tag == 9 {
            Self::decode_plain_response(decoder, tag)
        } else {
            Err(bad_tag("invalid response tag ", tag))
        }
    }

    /// Reads a response.
    pub fn decode_response(b: &[u8]) -> (r: Result<ResponseEnvelope, GrpcCodecError>)
        ensures
            match decoded_response(b@) {
                Ok(response) => r matches Ok(found) && found@ == response,
                Err(message) => r matches Err(e) && e@ == GrpcCodecErrorV::InvalidPayload(message),
            },
    {
        proof {
            reveal(decoded_response);
        }
        let mut decoder = BinaryDecoder::new(b);
        let request_id: u64 = match decoder.read_u64("response.request_id") {
            Ok(request_id) => request_id,
            Err(error) => {
                return Err(error);
            },
        };
        let from = match Self::decode_node_address(&mut decoder) {
            Ok(from) => from,
            Err(error) => {
                return Err(error);
            },
        };
        let to = match Self::decode_node_address(&mut decoder) {
            Ok(to) => to,
            Err(error) => {
                return Err(error);
            },
        };
        let response = match Self::decode_response_body(&mut decoder) {
            Ok(response) => response,
            Err(error) => {
                return Err(error);
            },
        };
        match decoder.finish() {
            Ok(()) => Ok(ResponseEnvelope { request_id, from, to, response }),
            Err(error) => Err(error),
        }
    }
}

} // verus!
