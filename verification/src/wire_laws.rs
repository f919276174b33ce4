//! What the wire format guarantees: messages are read back as they were
//! written, and nothing shorter or longer is taken for one.
use vstd::prelude::*;

use crate::api_types::{
    AddressV, ClientRequestV, ClientResponseV, ReadConsistency, RequestEnvelopeV,
    ResponseEnvelopeV, TimeoutOperation,
};
use crate::bytes;
use crate::types::CommandV;
use crate::wire_codec;
use crate::wire_fields;

verus! {

/// An address that this machine can hold.
pub open spec fn address_fits(address: AddressV) -> bool {
    wire_fields::fits(address.endpoint)
}

/// A command that this machine can hold.
pub open spec fn command_fits(command: CommandV) -> bool {
    match command {
        CommandV::Put { key, value } => wire_fields::fits(key) && wire_fields::fits(value),
        CommandV::Delete { key } => wire_fields::fits(key),
    }
}

/// A request that this machine can hold.
pub open spec fn request_fits(request: RequestEnvelopeV) -> bool {
    &&& address_fits(request.from)
    &&& address_fits(request.to)
    &&& match request.request {
        ClientRequestV::Write(command) => command_fits(command),
        ClientRequestV::Read { key, .. } => wire_fields::fits(key),
        ClientRequestV::Sql { query, .. } => wire_fields::fits(query),
    }
}

/// Texts that this machine can hold.
pub open spec fn texts_fit(values: Seq<Seq<char>>) -> bool {
    &&& values.len() <= usize::MAX
    &&& forall|i: int| 0 <= i < values.len() ==> wire_fields::fits(#[trigger] values[i])
}

/// What a response carries fits this machine.
pub open spec fn response_body_fits(response: ClientResponseV) -> bool {
    match response {
        ClientResponseV::ReadResult { value, .. } => value matches Some(t) ==> wire_fields::fits(t),
        ClientResponseV::Redirect { leader } => address_fits(leader),
        ClientResponseV::RouteError { message } => wire_fields::fits(message),
        ClientResponseV::InvalidQuery { message } => wire_fields::fits(message),
        ClientResponseV::InternalError { message } => wire_fields::fits(message),
        ClientResponseV::SqlRows { columns, rows, .. } => texts_fit(columns) && rows.len()
            <= usize::MAX && forall|i: int| 0 <= i < rows.len() ==> texts_fit(#[trigger] rows[i]),
        _ => true,
    }
}

/// A response that this machine can hold.
pub open spec fn response_fits(response: ResponseEnvelopeV) -> bool {
    &&& address_fits(response.from)
    &&& address_fits(response.to)
    &&& response_body_fits(response.response)
}

proof fn address_reads_back(b: Seq<u8>, p: int, address: AddressV)
    requires
        address_fits(address),
        wire_fields::holds_at(b, p, wire_codec::address_bytes(address)),
    ensures
        wire_codec::address_field(b, p) == Ok::<(AddressV, int), Seq<char>>(
            (address, p + wire_codec::address_bytes(address).len()),
        ),
{
    reveal(wire_codec::address_bytes);
    reveal(wire_codec::address_field);
    let id = bytes::le64(address.node_id);
    let endpoint = wire_fields::text_bytes(address.endpoint);
    wire_fields::holds_in_parts(b, p, id, endpoint);
    wire_fields::u64_reads_back(b, p, address.node_id, "node_address.node_id"@);
    wire_fields::text_reads_back(b, p + 8, address.endpoint, "node_address.endpoint"@);
}

proof fn consistency_reads_back(b: Seq<u8>, p: int, consistency: ReadConsistency)
    requires
        wire_fields::holds_at(b, p, seq![wire_codec::consistency_tag(consistency)]),
    ensures
        wire_codec::consistency_field(b, p) == Ok::<(ReadConsistency, int), Seq<char>>(
            (consistency, p + 1),
        ),
{
    reveal(wire_codec::consistency_field);
    wire_fields::u8_reads_back(
        b,
        p,
        wire_codec::consistency_tag(consistency),
        "read_consistency"@,
    );
}

proof fn operation_reads_back(b: Seq<u8>, p: int, operation: TimeoutOperation)
    requires
        wire_fields::holds_at(b, p, seq![wire_codec::operation_tag(operation)]),
    ensures
        wire_codec::operation_field(b, p) == Ok::<(TimeoutOperation, int), Seq<char>>(
            (operation, p + 1),
        ),
{
    reveal(wire_codec::operation_field);
    wire_fields::u8_reads_back(b, p, wire_codec::operation_tag(operation), "timeout_operation"@);
}

proof fn command_reads_back(b: Seq<u8>, p: int, command: CommandV)
    requires
        command_fits(command),
        wire_fields::holds_at(b, p, wire_codec::command_bytes(command)),
    ensures
        wire_codec::command_field(b, p) == Ok::<(CommandV, int), Seq<char>>(
            (command, p + wire_codec::command_bytes(command).len()),
        ),
{
    reveal(wire_codec::command_bytes);
    reveal(wire_codec::command_field);
    match command {
        CommandV::Put { key, value } => {
            let k = wire_fields::text_bytes(key);
            let v = wire_fields::text_bytes(value);
            wire_fields::holds_in_parts(b, p, seq![0u8] + k, v);
            wire_fields::holds_in_parts(b, p, seq![0u8], k);
            wire_fields::u8_reads_back(b, p, 0, "command.tag"@);
            wire_fields::text_reads_back(b, p + 1, key, "command.put.key"@);
            wire_fields::text_reads_back(b, p + 1 + k.len(), value, "command.put.value"@);
        },
        CommandV::Delete { key } => {
            let k = wire_fields::text_bytes(key);
            wire_fields::holds_in_parts(b, p, seq![1u8], k);
            wire_fields::u8_reads_back(b, p, 1, "command.tag"@);
            wire_fields::text_reads_back(b, p + 1, key, "command.delete.key"@);
        },
    }
}

proof fn request_body_reads_back(b: Seq<u8>, p: int, request: RequestEnvelopeV)
    requires
        request_fits(request),
        wire_fields::holds_at(b, p, wire_codec::request_body_bytes(request.request)),
    ensures
        wire_codec::request_body_field(b, p) == Ok::<(ClientRequestV, int), Seq<char>>(
            (request.request, p + wire_codec::request_body_bytes(request.request).len()),
        ),
{
    reveal(wire_codec::request_body_bytes);
    reveal(wire_codec::request_body_field);
    match request.request {
        ClientRequestV::Write(command) => {
            wire_fields::holds_in_parts(b, p, seq![0u8], wire_codec::command_bytes(command));
            wire_fields::u8_reads_back(b, p, 0, "request.tag"@);
            command_reads_back(b, p + 1, command);
        },
        ClientRequestV::Read { key, consistency } => {
            let k = wire_fields::text_bytes(key);
            let tag = seq![wire_codec::consistency_tag(consistency)];
            wire_fields::holds_in_parts(b, p, seq![1u8] + k, tag);
            wire_fields::holds_in_parts(b, p, seq![1u8], k);
            wire_fields::u8_reads_back(b, p, 1, "request.tag"@);
            wire_fields::text_reads_back(b, p + 1, key, "request.read.key"@);
            consistency_reads_back(b, p + 1 + k.len(), consistency);
        },
        ClientRequestV::Sql { query, read_consistency } => {
            let k = wire_fields::text_bytes(query);
            let tag = seq![wire_codec::consistency_tag(read_consistency)];
            wire_fields::holds_in_parts(b, p, seq![2u8] + k, tag);
            wire_fields::holds_in_parts(b, p, seq![2u8], k);
            wire_fields::u8_reads_back(b, p, 2, "request.tag"@);
            wire_fields::text_reads_back(b, p + 1, query, "request.sql.query"@);
            consistency_reads_back(b, p + 1 + k.len(), read_consistency);
        },
    }
}

/// Bytes that begin with a request decode to it when nothing follows, and are
/// refused when something does.
pub proof fn request_and_nothing_else(request: RequestEnvelopeV, more: Seq<u8>)
    requires
        request_fits(request),
    ensures
        wire_codec::decoded_request(wire_codec::request_bytes(request) + more) == if more.len()
            == 0 {
            Ok(request)
        } else {
            Err(wire_fields::trailing_message(more.len()))
        },
{
    let b = wire_codec::request_bytes(request) + more;
    let id = bytes::le64(request.request_id);
    let from = wire_codec::address_bytes(request.from);
    let to = wire_codec::address_bytes(request.to);
    let timeout = wire_fields::option_u64_bytes(request.timeout_ticks);
    let body = wire_codec::request_body_bytes(request.request);
    let whole = wire_codec::request_bytes(request);
    assert(b.subrange(0, whole.len() as int) =~= whole);
    wire_fields::holds_in_parts(b, 0, id, from + (to + (timeout + body)));
    wire_fields::u64_reads_back(b, 0, request.request_id, "request.request_id"@);
    wire_fields::holds_in_parts(b, 8, from, to + (timeout + body));
    address_reads_back(b, 8, request.from);
    let p = 8 + from.len() as int;
    wire_fields::holds_in_parts(b, p, to, timeout + body);
    address_reads_back(b, p, request.to);
    let q = p + to.len();
    wire_fields::holds_in_parts(b, q, timeout, body);
    wire_fields::option_u64_reads_back(b, q, request.timeout_ticks, "request.timeout_ticks"@);
    request_body_reads_back(b, q + timeout.len(), request);
    reveal(wire_codec::decoded_request);
}

/// A request is read back as it was written.
pub proof fn request_reads_back(request: RequestEnvelopeV)
    requires
        request_fits(request),
    ensures
        wire_codec::decoded_request(wire_codec::request_bytes(request)) == Ok::<
            RequestEnvelopeV,
            Seq<char>,
        >(request),
{
    request_and_nothing_else(request, Seq::empty());
    assert(wire_codec::request_bytes(request) + Seq::<u8>::empty() =~= wire_codec::request_bytes(
        request,
    ));
}

proof fn row_reads_back(b: Seq<u8>, p: int, row: Seq<Seq<char>>)
    requires
        texts_fit(row),
        wire_fields::holds_at(b, p, wire_codec::row_bytes(row)),
    ensures
        wire_codec::row_field(b, p) == Ok::<(Seq<Seq<char>>, int), Seq<char>>(
            (row, p + wire_codec::row_bytes(row).len()),
        ),
{
    reveal(wire_codec::row_bytes);
    reveal(wire_codec::row_field);
    let n = bytes::le64(row.len() as u64);
    wire_fields::holds_in_parts(b, p, n, wire_fields::texts_bytes(row));
    wire_fields::u64_reads_back(b, p, row.len() as u64, "response.sql_rows.row.columns"@);
    wire_fields::texts_read_back(b, p + 8, row, "response.sql_rows.row.value"@);
}

proof fn rows_bytes_in_parts(a: Seq<Seq<Seq<char>>>, c: Seq<Seq<Seq<char>>>)
    ensures
        wire_codec::rows_bytes(a + c) == wire_codec::rows_bytes(a) + wire_codec::rows_bytes(c),
    decreases c.len(),
{
    if c.len() == 0 {
        assert(a + c =~= a);
        assert(wire_codec::rows_bytes(a) + wire_codec::rows_bytes(c) =~= wire_codec::rows_bytes(a));
    } else {
        assert((a + c).drop_last() =~= a + c.drop_last());
        rows_bytes_in_parts(a, c.drop_last());
        assert(wire_codec::rows_bytes(a) + (wire_codec::rows_bytes(c.drop_last())
            + wire_codec::row_bytes(c.last())) =~= wire_codec::rows_bytes(a)
            + wire_codec::rows_bytes(c.drop_last()) + wire_codec::row_bytes(c.last()));
    }
}

proof fn rows_read_back(b: Seq<u8>, p: int, rows: Seq<Seq<Seq<char>>>)
    requires
        forall|i: int| 0 <= i < rows.len() ==> texts_fit(#[trigger] rows[i]),
        wire_fields::holds_at(b, p, wire_codec::rows_bytes(rows)),
    ensures
        wire_codec::rows_field(b, p, rows.len()) == Ok::<(Seq<Seq<Seq<char>>>, int), Seq<char>>(
            (rows, p + wire_codec::rows_bytes(rows).len()),
        ),
    decreases rows.len(),
{
    if rows.len() == 0 {
        assert(rows =~= Seq::<Seq<Seq<char>>>::empty());
    } else {
        let first = rows[0];
        let rest = rows.skip(1);
        assert(rows =~= seq![first] + rest);
        rows_bytes_in_parts(seq![first], rest);
        assert(seq![first].drop_last() =~= Seq::<Seq<Seq<char>>>::empty());
        assert(wire_codec::rows_bytes(Seq::<Seq<Seq<char>>>::empty()) =~= Seq::<u8>::empty());
        assert(wire_codec::rows_bytes(seq![first]) =~= wire_codec::row_bytes(first));
        wire_fields::holds_in_parts(
            b,
            p,
            wire_codec::row_bytes(first),
            wire_codec::rows_bytes(rest),
        );
        assert(texts_fit(rows[0]));
        row_reads_back(b, p, first);
        assert forall|i: int| 0 <= i < rest.len() implies texts_fit(#[trigger] rest[i]) by {
            assert(texts_fit(rows[i + 1]));
        }
        rows_read_back(b, p + wire_codec::row_bytes(first).len(), rest);
    }
}

proof fn count_reads_back(b: Seq<u8>, p: int, value: usize, field: Seq<char>)
    requires
        wire_fields::holds_at(b, p, bytes::le64(value as u64)),
    ensures
        wire_codec::count_field(b, p, field) == Ok::<(usize, int), Seq<char>>((value, p + 8)),
{
    reveal(wire_codec::count_field);
    wire_fields::u64_reads_back(b, p, value as u64, field);
}

proof fn sql_rows_read_back(
    b: Seq<u8>,
    p: int,
    columns: Seq<Seq<char>>,
    rows: Seq<Seq<Seq<char>>>,
    consistency: ReadConsistency,
)
    requires
        response_body_fits(ClientResponseV::SqlRows { columns, rows, consistency }),
        wire_fields::holds_at(
            b,
            p,
            bytes::le64(columns.len() as u64) + (wire_fields::texts_bytes(columns) + (bytes::le64(
                rows.len() as u64,
            ) + (wire_codec::rows_bytes(rows) + seq![wire_codec::consistency_tag(consistency)]))),
        ),
    ensures
        wire_codec::sql_rows_field(b, p) == Ok::<(ClientResponseV, int), Seq<char>>(
            (
                ClientResponseV::SqlRows { columns, rows, consistency },
                p + 8 + wire_fields::texts_bytes(columns).len() + 8 + wire_codec::rows_bytes(
                    rows,
                ).len() + 1,
            ),
        ),
{
    reveal(wire_codec::sql_rows_field);
    bytes::le_lengths();
    let n = bytes::le64(columns.len() as u64);
    let c = wire_fields::texts_bytes(columns);
    let m = bytes::le64(rows.len() as u64);
    let r = wire_codec::rows_bytes(rows);
    let tag = seq![wire_codec::consistency_tag(consistency)];
    wire_fields::holds_in_parts(b, p, n, c + (m + (r + tag)));
    wire_fields::u64_reads_back(b, p, columns.len() as u64, "response.sql_rows.columns"@);
    wire_fields::holds_in_parts(b, p + 8, c, m + (r + tag));
    wire_fields::texts_read_back(b, p + 8, columns, "response.sql_rows.column"@);
    let q = p + 8 + c.len();
    wire_fields::holds_in_parts(b, q, m, r + tag);
    wire_fields::u64_reads_back(b, q, rows.len() as u64, "response.sql_rows.rows"@);
    wire_fields::holds_in_parts(b, q + 8, r, tag);
    rows_read_back(b, q + 8, rows);
    consistency_reads_back(b, q + 8 + r.len(), consistency);
}

proof fn response_body_reads_back(b: Seq<u8>, p: int, response: ClientResponseV)
    requires
        response_body_fits(response),
        wire_fields::holds_at(b, p, wire_codec::response_body_bytes(response)),
    ensures
        wire_codec::response_body_field(b, p) == Ok::<(ClientResponseV, int), Seq<char>>(
            (response, p + wire_codec::response_body_bytes(response).len()),
        ),
{
    reveal(wire_codec::response_body_bytes);
    reveal(wire_codec::response_body_field);
    bytes::le_lengths();
    match response {
        ClientResponseV::WriteCommitted { index, committed_nodes } => {
            let x = bytes::le64(index);
            let y = bytes::le64(committed_nodes as u64);
            wire_fields::holds_in_parts(b, p, seq![0u8], x + y);
            wire_fields::u8_reads_back(b, p, 0, "response.tag"@);
            wire_fields::holds_in_parts(b, p + 1, x, y);
            reveal(wire_codec::write_committed_field);
            wire_fields::u64_reads_back(b, p + 1, index, "response.write_committed.index"@);
            count_reads_back(
                b,
                p + 9,
                committed_nodes,
                "response.write_committed.committed_nodes"@,
            );
        },
        ClientResponseV::ReadResult { value, consistency } => {
            let x = wire_fields::option_text_bytes(value);
            let y = seq![wire_codec::consistency_tag(consistency)];
            wire_fields::holds_in_parts(b, p, seq![1u8], x + y);
            wire_fields::u8_reads_back(b, p, 1, "response.tag"@);
            wire_fields::holds_in_parts(b, p + 1, x, y);
            reveal(wire_codec::read_result_field);
            wire_fields::option_text_reads_back(b, p + 1, value, "response.read.value"@);
            consistency_reads_back(b, p + 1 + x.len(), consistency);
        },
        ClientResponseV::Redirect { leader } => {
            wire_fields::holds_in_parts(b, p, seq![2u8], wire_codec::address_bytes(leader));
            wire_fields::u8_reads_back(b, p, 2, "response.tag"@);
            reveal(wire_codec::plain_response_field);
            address_reads_back(b, p + 1, leader);
        },
        ClientResponseV::TimedOut { operation, index, observed_nodes } => {
            let x = seq![wire_codec::operation_tag(operation)];
            let y = wire_fields::option_u64_bytes(index);
            let z = bytes::le64(observed_nodes as u64);
            wire_fields::holds_in_parts(b, p, seq![3u8], x + (y + z));
            wire_fields::u8_reads_back(b, p, 3, "response.tag"@);
            wire_fields::holds_in_parts(b, p + 1, x, y + z);
            wire_fields::holds_in_parts(b, p + 2, y, z);
            reveal(wire_codec::timed_out_field);
            operation_reads_back(b, p + 1, operation);
            wire_fields::option_u64_reads_back(b, p + 2, index, "response.timed_out.index"@);
            count_reads_back(
                b,
                p + 2 + y.len(),
                observed_nodes,
                "response.timed_out.observed_nodes"@,
            );
        },
        ClientResponseV::Overloaded { pending_entries, limit } => {
            let x = bytes::le64(pending_entries);
            let y = bytes::le64(limit);
            wire_fields::holds_in_parts(b, p, seq![4u8], x + y);
            wire_fields::u8_reads_back(b, p, 4, "response.tag"@);
            wire_fields::holds_in_parts(b, p + 1, x, y);
            reveal(wire_codec::overloaded_field);
            wire_fields::u64_reads_back(
                b,
                p + 1,
                pending_entries,
                "response.overloaded.pending_entries"@,
            );
            wire_fields::u64_reads_back(b, p + 9, limit, "response.overloaded.limit"@);
        },
        ClientResponseV::RouteError { message } => {
            wire_fields::holds_in_parts(b, p, seq![5u8], wire_fields::text_bytes(message));
            wire_fields::u8_reads_back(b, p, 5, "response.tag"@);
            reveal(wire_codec::plain_response_field);
            wire_fields::text_reads_back(b, p + 1, message, "response.route_error.message"@);
        },
        ClientResponseV::InvalidQuery { message } => {
            wire_fields::holds_in_parts(b, p, seq![6u8], wire_fields::text_bytes(message));
            wire_fields::u8_reads_back(b, p, 6, "response.tag"@);
            reveal(wire_codec::plain_response_field);
            wire_fields::text_reads_back(b, p + 1, message, "response.invalid_query.message"@);
        },
        ClientResponseV::SqlRows { columns, rows, consistency } => {
            let n = bytes::le64(columns.len() as u64);
            let c = wire_fields::texts_bytes(columns);
            let m = bytes::le64(rows.len() as u64);
            let r = wire_codec::rows_bytes(rows);
            let tag = seq![wire_codec::consistency_tag(consistency)];
            wire_fields::holds_in_parts(b, p, seq![7u8], n + (c + (m + (r + tag))));
            wire_fields::u8_reads_back(b, p, 7, "response.tag"@);
            sql_rows_read_back(b, p + 1, columns, rows, consistency);
        },
        ClientResponseV::SqlWriteResult { affected_rows, last_index, committed_nodes } => {
            let x = bytes::le64(affected_rows as u64);
            let y = wire_fields::option_u64_bytes(last_index);
            let z = bytes::le64(committed_nodes as u64);
            wire_fields::holds_in_parts(b, p, seq![8u8], x + (y + z));
            wire_fields::u8_reads_back(b, p, 8, "response.tag"@);
            wire_fields::holds_in_parts(b, p + 1, x, y + z);
            wire_fields::holds_in_parts(b, p + 9, y, z);
            reveal(wire_codec::sql_write_field);
            count_reads_back(b, p + 1, affected_rows, "response.sql_write.affected_rows"@);
            wire_fields::option_u64_reads_back(
                b,
                p + 9,
                last_index,
                "response.sql_write.last_index"@,
            );
            count_reads_back(
                b,
                p + 9 + y.len(),
                committed_nodes,
                "response.sql_write.committed_nodes"@,
            );
        },
        ClientResponseV::InternalError { message } => {
            wire_fields::holds_in_parts(b, p, seq![9u8], wire_fields::text_bytes(message));
            wire_fields::u8_reads_back(b, p, 9, "response.tag"@);
            reveal(wire_codec::plain_response_field);
            wire_fields::text_reads_back(b, p + 1, message, "response.internal_error.message"@);
        },
    }
}

/// Bytes that begin with a response decode to it when nothing follows, and are
/// refused when something does.
pub proof fn response_and_nothing_else(response: ResponseEnvelopeV, more: Seq<u8>)
    requires
        response_fits(response),
    ensures
        wire_codec::decoded_response(wire_codec::response_bytes(response) + more) == if more.len()
            == 0 {
            Ok(response)
        } else {
            Err(wire_fields::trailing_message(more.len()))
        },
{
    let b = wire_codec::response_bytes(response) + more;
    let id = bytes::le64(response.request_id);
    let from = wire_codec::address_bytes(response.from);
    let to = wire_codec::address_bytes(response.to);
    let body = wire_codec::response_body_bytes(response.response);
    let whole = wire_codec::response_bytes(response);
    assert(b.subrange(0, whole.len() as int) =~= whole);
    wire_fields::holds_in_parts(b, 0, id, from + (to + body));
    wire_fields::u64_reads_back(b, 0, response.request_id, "response.request_id"@);
    wire_fields::holds_in_parts(b, 8, from, to + body);
    address_reads_back(b, 8, response.from);
    let p = 8 + from.len() as int;
    wire_fields::holds_in_parts(b, p, to, body);
    address_reads_back(b, p, response.to);
    response_body_reads_back(b, p + to.len(), response.response);
    reveal(wire_codec::decoded_response);
}

/// A response is read back as it was written.
pub proof fn response_reads_back(response: ResponseEnvelopeV)
    requires
        response_fits(response),
    ensures
        wire_codec::decoded_response(wire_codec::response_bytes(response)) == Ok::<
            ResponseEnvelopeV,
            Seq<char>,
        >(response),
{
    response_and_nothing_else(response, Seq::empty());
    assert(wire_codec::response_bytes(response) + Seq::<u8>::empty()
        =~= wire_codec::response_bytes(response));
}

/// One byte sequence begins with the other.
pub open spec fn begins_with(b: Seq<u8>, a: Seq<u8>) -> bool {
    a.len() <= b.len() && b.take(a.len() as int) == a
}

/// A range within the shorter of two such sequences is the same in both.
proof fn same_range(a: Seq<u8>, b: Seq<u8>, from: int, to: int)
    requires
        begins_with(b, a),
        0 <= from <= to <= a.len(),
    ensures
        a.subrange(from, to) == b.subrange(from, to),
{
    assert(b.take(a.len() as int).subrange(from, to) =~= b.subrange(from, to));
}

proof fn same_u8(a: Seq<u8>, b: Seq<u8>, p: int, field: Seq<char>)
    requires
        begins_with(b, a),
        0 <= p <= a.len(),
    ensures
        wire_fields::u8_field(a, p, field) matches Ok(found) ==> wire_fields::u8_field(b, p, field)
            == Ok::<(u8, int), Seq<char>>(found) && p <= found.1 <= a.len(),
{
    if p < a.len() {
        assert(b.take(a.len() as int)[p] == b[p]);
    }
}

proof fn same_u64(a: Seq<u8>, b: Seq<u8>, p: int, field: Seq<char>)
    requires
        begins_with(b, a),
        0 <= p <= a.len(),
    ensures
        wire_fields::u64_field(a, p, field) matches Ok(found) ==> wire_fields::u64_field(
            b,
            p,
            field,
        ) == Ok::<(u64, int), Seq<char>>(found) && p <= found.1 <= a.len(),
{
    if p + 8 <= a.len() {
        reveal(bytes::u64_at);
        reveal(bytes::u32_at);
        same_range(a, b, p, p + 4);
        same_range(a, b, p + 4, p + 8);
    }
}

proof fn same_text(a: Seq<u8>, b: Seq<u8>, p: int, field: Seq<char>)
    requires
        begins_with(b, a),
        0 <= p <= a.len(),
    ensures
        wire_fields::text_field(a, p, field) matches Ok(found) ==> wire_fields::text_field(
            b,
            p,
            field,
        ) == Ok::<(Seq<char>, int), Seq<char>>(found) && p <= found.1 <= a.len(),
{
    reveal(wire_fields::text_field);
    same_u64(a, b, p, field);
    if let Ok((len, q)) = wire_fields::len_field(a, p, field) {
        if q + len <= a.len() {
            same_range(a, b, q, q + len);
        }
    }
}

proof fn same_option_u64(a: Seq<u8>, b: Seq<u8>, p: int, field: Seq<char>)
    requires
        begins_with(b, a),
        0 <= p <= a.len(),
    ensures
        wire_fields::option_u64_field(a, p, field) matches Ok(found)
            ==> wire_fields::option_u64_field(b, p, field) == Ok::<(Option<u64>, int), Seq<char>>(
            found,
        ) && p <= found.1 <= a.len(),
{
    reveal(wire_fields::option_u64_field);
    same_u8(a, b, p, field);
    if let Ok((flag, q)) = wire_fields::u8_field(a, p, field) {
        same_u64(a, b, q, field);
    }
}

proof fn same_option_text(a: Seq<u8>, b: Seq<u8>, p: int, field: Seq<char>)
    requires
        begins_with(b, a),
        0 <= p <= a.len(),
    ensures
        wire_fields::option_text_field(a, p, field) matches Ok(found)
            ==> wire_fields::option_text_field(b, p, field) == Ok::<
            (Option<Seq<char>>, int),
            Seq<char>,
        >(found) && p <= found.1 <= a.len(),
{
    reveal(wire_fields::option_text_field);
    same_u8(a, b, p, field);
    if let Ok((flag, q)) = wire_fields::u8_field(a, p, field) {
        same_text(a, b, q, field);
    }
}

proof fn same_texts(a: Seq<u8>, b: Seq<u8>, p: int, n: nat, field: Seq<char>)
    requires
        begins_with(b, a),
        0 <= p <= a.len(),
    ensures
        wire_fields::texts_field(a, p, n, field) matches Ok(found) ==> wire_fields::texts_field(
            b,
            p,
            n,
            field,
        ) == Ok::<(Seq<Seq<char>>, int), Seq<char>>(found) && p <= found.1 <= a.len(),
    decreases n,
{
    if n > 0 {
        same_text(a, b, p, field);
        if let Ok((value, q)) = wire_fields::text_field(a, p, field) {
            same_texts(a, b, q, (n - 1) as nat, field);
        }
    }
}

proof fn same_address(a: Seq<u8>, b: Seq<u8>, p: int)
    requires
        begins_with(b, a),
        0 <= p <= a.len(),
    ensures
        wire_codec::address_field(a, p) matches Ok(found) ==> wire_codec::address_field(b, p)
            == Ok::<(AddressV, int), Seq<char>>(found) && p <= found.1 <= a.len(),
{
    reveal(wire_codec::address_field);
    same_u64(a, b, p, "node_address.node_id"@);
    if let Ok((id, q)) = wire_fields::u64_field(a, p, "node_address.node_id"@) {
        same_text(a, b, q, "node_address.endpoint"@);
    }
}

proof fn same_consistency(a: Seq<u8>, b: Seq<u8>, p: int)
    requires
        begins_with(b, a),
        0 <= p <= a.len(),
    ensures
        wire_codec::consistency_field(a, p) matches Ok(found) ==> wire_codec::consistency_field(
            b,
            p,
        ) == Ok::<(ReadConsistency, int), Seq<char>>(found) && p <= found.1 <= a.len(),
{
    reveal(wire_codec::consistency_field);
    same_u8(a, b, p, "read_consistency"@);
}

proof fn same_command(a: Seq<u8>, b: Seq<u8>, p: int)
    requires
        begins_with(b, a),
        0 <= p <= a.len(),
    ensures
        wire_codec::command_field(a, p) matches Ok(found) ==> wire_codec::command_field(b, p)
            == Ok::<(CommandV, int), Seq<char>>(found) && p <= found.1 <= a.len(),
{
    reveal(wire_codec::command_field);
    same_u8(a, b, p, "command.tag"@);
    if let Ok((tag, q)) = wire_fields::u8_field(a, p, "command.tag"@) {
        same_text(a, b, q, "command.put.key"@);
        same_text(a, b, q, "command.delete.key"@);
        if let Ok((key, s)) = wire_fields::text_field(a, q, "command.put.key"@) {
            same_text(a, b, s, "command.put.value"@);
        }
    }
}

proof fn same_request_body(a: Seq<u8>, b: Seq<u8>, p: int)
    requires
        begins_with(b, a),
        0 <= p <= a.len(),
    ensures
        wire_codec::request_body_field(a, p) matches Ok(found) ==> wire_codec::request_body_field(
            b,
            p,
        ) == Ok::<(ClientRequestV, int), Seq<char>>(found) && p <= found.1 <= a.len(),
{
    reveal(wire_codec::request_body_field);
    same_u8(a, b, p, "request.tag"@);
    if let Ok((tag, q)) = wire_fields::u8_field(a, p, "request.tag"@) {
        same_command(a, b, q);
        same_text(a, b, q, "request.read.key"@);
        same_text(a, b, q, "request.sql.query"@);
        if let Ok((key, s)) = wire_fields::text_field(a, q, "request.read.key"@) {
            same_consistency(a, b, s);
        }
        if let Ok((query, s)) = wire_fields::text_field(a, q, "request.sql.query"@) {
            same_consistency(a, b, s);
        }
    }
}

/// No request is a part of another: a request cut short is refused.
pub proof fn truncated_requests_are_refused(request: RequestEnvelopeV, n: int)
    requires
        request_fits(request),
        0 <= n < wire_codec::request_bytes(request).len(),
    ensures
        wire_codec::decoded_request(wire_codec::request_bytes(request).take(n)) is Err,
{
    let b = wire_codec::request_bytes(request);
    let a = b.take(n);
    request_reads_back(request);
    reveal(wire_codec::decoded_request);
    same_u64(a, b, 0, "request.request_id"@);
    if let Ok((id, q)) = wire_fields::u64_field(a, 0, "request.request_id"@) {
        same_address(a, b, q);
        if let Ok((from, q)) = wire_codec::address_field(a, q) {
            same_address(a, b, q);
            if let Ok((to, q)) = wire_codec::address_field(a, q) {
                same_option_u64(a, b, q, "request.timeout_ticks"@);
                if let Ok((timeout, q)) = wire_fields::option_u64_field(
                    a,
                    q,
                    "request.timeout_ticks"@,
                ) {
                    same_request_body(a, b, q);
                }
            }
        }
    }
}

proof fn same_count(a: Seq<u8>, b: Seq<u8>, p: int, field: Seq<char>)
    requires
        begins_with(b, a),
        0 <= p <= a.len(),
    ensures
        wire_codec::count_field(a, p, field) matches Ok(found) ==> wire_codec::count_field(
            b,
            p,
            field,
        ) == Ok::<(usize, int), Seq<char>>(found) && p <= found.1 <= a.len(),
{
    reveal(wire_codec::count_field);
    same_u64(a, b, p, field);
}

proof fn same_rows(a: Seq<u8>, b: Seq<u8>, p: int, n: nat)
    requires
        begins_with(b, a),
        0 <= p <= a.len(),
    ensures
        wire_codec::rows_field(a, p, n) matches Ok(found) ==> wire_codec::rows_field(b, p, n)
            == Ok::<(Seq<Seq<Seq<char>>>, int), Seq<char>>(found) && p <= found.1 <= a.len(),
    decreases n,
{
    if n > 0 {
        assert(wire_codec::row_field(a, p) matches Ok(found) ==> wire_codec::row_field(b, p)
            == Ok::<(Seq<Seq<char>>, int), Seq<char>>(found) && p <= found.1 <= a.len()) by {
            reveal(wire_codec::row_field);
            same_u64(a, b, p, "response.sql_rows.row.columns"@);
            if let Ok((m, q)) = wire_fields::len_field(a, p, "response.sql_rows.row.columns"@) {
                same_texts(a, b, q, m as nat, "response.sql_rows.row.value"@);
            }
        }
        if let Ok((row, q)) = wire_codec::row_field(a, p) {
            same_rows(a, b, q, (n - 1) as nat);
        }
    }
}

proof fn same_sql_rows(a: Seq<u8>, b: Seq<u8>, p: int)
    requires
        begins_with(b, a),
        0 <= p <= a.len(),
    ensures
        wire_codec::sql_rows_field(a, p) matches Ok(found) ==> wire_codec::sql_rows_field(b, p)
            == Ok::<(ClientResponseV, int), Seq<char>>(found) && p <= found.1 <= a.len(),
{
    reveal(wire_codec::sql_rows_field);
    same_u64(a, b, p, "response.sql_rows.columns"@);
    if let Ok((n, q)) = wire_fields::len_field(a, p, "response.sql_rows.columns"@) {
        same_texts(a, b, q, n as nat, "response.sql_rows.column"@);
        if let Ok((columns, q)) = wire_fields::texts_field(
            a,
            q,
            n as nat,
            "response.sql_rows.column"@,
        ) {
            same_u64(a, b, q, "response.sql_rows.rows"@);
            if let Ok((m, q)) = wire_fields::len_field(a, q, "response.sql_rows.rows"@) {
                same_rows(a, b, q, m as nat);
                if let Ok((rows, q)) = wire_codec::rows_field(a, q, m as nat) {
                    same_consistency(a, b, q);
                }
            }
        }
    }
}

proof fn same_numbers(a: Seq<u8>, b: Seq<u8>, p: int)
    requires
        begins_with(b, a),
        0 <= p <= a.len(),
    ensures
        wire_codec::write_committed_field(a, p) matches Ok(found)
            ==> wire_codec::write_committed_field(b, p) == Ok::<
            (ClientResponseV, int),
            Seq<char>,
        >(found) && p <= found.1 <= a.len(),
        wire_codec::overloaded_field(a, p) matches Ok(found) ==> wire_codec::overloaded_field(b, p)
            == Ok::<(ClientResponseV, int), Seq<char>>(found) && p <= found.1 <= a.len(),
        wire_codec::sql_write_field(a, p) matches Ok(found) ==> wire_codec::sql_write_field(b, p)
            == Ok::<(ClientResponseV, int), Seq<char>>(found) && p <= found.1 <= a.len(),
{
    reveal(wire_codec::write_committed_field);
    reveal(wire_codec::overloaded_field);
    reveal(wire_codec::sql_write_field);
    same_u64(a, b, p, "response.write_committed.index"@);
    if let Ok((x, q)) = wire_fields::u64_field(a, p, "response.write_committed.index"@) {
        same_count(a, b, q, "response.write_committed.committed_nodes"@);
    }
    same_u64(a, b, p, "response.overloaded.pending_entries"@);
    if let Ok((x, q)) = wire_fields::u64_field(a, p, "response.overloaded.pending_entries"@) {
        same_u64(a, b, q, "response.overloaded.limit"@);
    }
    same_count(a, b, p, "response.sql_write.affected_rows"@);
    if let Ok((x, q)) = wire_codec::count_field(a, p, "response.sql_write.affected_rows"@) {
        same_option_u64(a, b, q, "response.sql_write.last_index"@);
        if let Ok((y, q)) = wire_fields::option_u64_field(
            a,
            q,
            "response.sql_write.last_index"@,
        ) {
            same_count(a, b, q, "response.sql_write.committed_nodes"@);
        }
    }
}

proof fn same_tagged(a: Seq<u8>, b: Seq<u8>, p: int, tag: u8)
    requires
        begins_with(b, a),
        0 <= p <= a.len(),
    ensures
        wire_codec::read_result_field(a, p) matches Ok(found) ==> wire_codec::read_result_field(
            b,
            p,
        ) == Ok::<(ClientResponseV, int), Seq<char>>(found) && p <= found.1 <= a.len(),
        wire_codec::timed_out_field(a, p) matches Ok(found) ==> wire_codec::timed_out_field(b, p)
            == Ok::<(ClientResponseV, int), Seq<char>>(found) && p <= found.1 <= a.len(),
        wire_codec::plain_response_field(a, p, tag) matches Ok(found)
            ==> wire_codec::plain_response_field(b, p, tag) == Ok::<
            (ClientResponseV, int),
            Seq<char>,
        >(found) && p <= found.1 <= a.len(),
{
    reveal(wire_codec::read_result_field);
    reveal(wire_codec::timed_out_field);
    reveal(wire_codec::plain_response_field);
    same_option_text(a, b, p, "response.read.value"@);
    if let Ok((x, q)) = wire_fields::option_text_field(a, p, "response.read.value"@) {
        same_consistency(a, b, q);
    }
    assert(wire_codec::operation_field(a, p) matches Ok(found) ==> wire_codec::operation_field(b, p)
        == Ok::<(TimeoutOperation, int), Seq<char>>(found) && p <= found.1 <= a.len()) by {
        reveal(wire_codec::operation_field);
        same_u8(a, b, p, "timeout_operation"@);
    }
    if let Ok((x, q)) = wire_codec::operation_field(a, p) {
        same_option_u64(a, b, q, "response.timed_out.index"@);
        if let Ok((y, q)) = wire_fields::option_u64_field(a, q, "response.timed_out.index"@) {
            same_count(a, b, q, "response.timed_out.observed_nodes"@);
        }
    }
    same_address(a, b, p);
    same_text(a, b, p, "response.route_error.message"@);
    same_text(a, b, p, "response.invalid_query.message"@);
    same_text(a, b, p, "response.internal_error.message"@);
}

/// No response is a part of another: a response cut short is refused.
pub proof fn truncated_responses_are_refused(response: ResponseEnvelopeV, n: int)
    requires
        response_fits(response),
        0 <= n < wire_codec::response_bytes(response).len(),
    ensures
        wire_codec::decoded_response(wire_codec::response_bytes(response).take(n)) is Err,
{
    let b = wire_codec::response_bytes(response);
    let a = b.take(n);
    response_reads_back(response);
    reveal(wire_codec::decoded_response);
    same_u64(a, b, 0, "response.request_id"@);
    if let Ok((id, q)) = wire_fields::u64_field(a, 0, "response.request_id"@) {
        same_address(a, b, q);
        if let Ok((from, q)) = wire_codec::address_field(a, q) {
            same_address(a, b, q);
            if let Ok((to, q)) = wire_codec::address_field(a, q) {
                reveal(wire_codec::response_body_field);
                same_u8(a, b, q, "response.tag"@);
                if let Ok((tag, q)) = wire_fields::u8_field(a, q, "response.tag"@) {
                    same_numbers(a, b, q);
                    same_tagged(a, b, q, tag);
                    same_sql_rows(a, b, q);
                }
            }
        }
    }
}

} // verus!
