//! Where everything stands in a message, byte by byte: messages have one form.
use vstd::prelude::*;
use vstd::utf8::*;

use crate::api_model::ApiV;
use crate::api_types::{
    ClientRequestV, ClientResponseV, ReadConsistency, RequestEnvelopeV,
    ResponseEnvelopeV, TimeoutOperation,
};
use crate::bytes;
use crate::file_layout;
use crate::file_layout::number;
use crate::text;
use crate::transport;
use crate::transport::TransportErrorV;
use crate::types::CommandV;
use crate::wire_codec;
use crate::wire_fields;
use crate::wire_laws;

verus! {

/// Eight bytes for a number, the lowest first.
pub open spec fn is_number(b: Seq<u8>, x: int) -> bool {
    b.len() == 8 && number(b) == x
}

/// A text: its length in eight bytes, then its characters in UTF-8.
pub open spec fn is_text(b: Seq<u8>, t: Seq<char>) -> bool {
    &&& b.len() == 8 + encode_utf8(t).len()
    &&& is_number(b.take(8), encode_utf8(t).len() as int)
    &&& b.skip(8) == encode_utf8(t)
}

/// Numbers and texts are written in these forms; a number or a text that may be
/// absent stands behind a byte 1, and a byte 0 alone stands for none.
pub proof fn fields_are_laid_out(x: u64, t: Seq<char>)
    requires
        encode_utf8(t).len() <= u64::MAX,
    ensures
        is_number(bytes::le64(x), x as int),
        is_text(wire_fields::text_bytes(t), t),
        wire_fields::option_u64_bytes(Some(x)) == seq![1u8] + bytes::le64(x),
        wire_fields::option_u64_bytes(None) == seq![0u8],
        wire_fields::option_text_bytes(Some(t)) == seq![1u8] + wire_fields::text_bytes(t),
        wire_fields::option_text_bytes(None) == seq![0u8],
{
    reveal(wire_fields::text_bytes);
    reveal(wire_fields::option_u64_bytes);
    reveal(wire_fields::option_text_bytes);
    let n = encode_utf8(t).len() as u64;
    file_layout::numbers_have_the_lowest_byte_first(0, x);
    file_layout::numbers_have_the_lowest_byte_first(0, n);
    let b = wire_fields::text_bytes(t);
    assert(b.take(8) =~= bytes::le64(n));
    assert(b.skip(8) =~= encode_utf8(t));
}

/// Texts in a list stand one behind the other, in order.
pub proof fn listed_texts_stand_in_order(values: Seq<Seq<char>>, last: Seq<char>)
    ensures
        wire_fields::texts_bytes(Seq::empty()).len() == 0,
        wire_fields::texts_bytes(values.push(last)) == wire_fields::texts_bytes(values)
            + wire_fields::text_bytes(last),
{
    assert(values.push(last).drop_last() =~= values);
}

/// Rows in a list stand one behind the other, in order, each as the number of its
/// texts and the texts.
pub proof fn listed_rows_stand_in_order(rows: Seq<Seq<Seq<char>>>, last: Seq<Seq<char>>)
    ensures
        wire_codec::rows_bytes(Seq::empty()).len() == 0,
        wire_codec::rows_bytes(rows.push(last)) == wire_codec::rows_bytes(rows) + bytes::le64(
            last.len() as u64,
        ) + wire_fields::texts_bytes(last),
{
    reveal(wire_codec::row_bytes);
    assert(rows.push(last).drop_last() =~= rows);
    assert(wire_codec::rows_bytes(rows.push(last)) =~= wire_codec::rows_bytes(rows) + bytes::le64(
        last.len() as u64,
    ) + wire_fields::texts_bytes(last));
}

/// The byte of a consistency: 0 for eventual, 1 for linearizable.
pub open spec fn consistency_byte(consistency: ReadConsistency) -> Seq<u8> {
    if consistency == ReadConsistency::Linearizable {
        seq![1u8]
    } else {
        seq![0u8]
    }
}

/// A request is its number, the id and the endpoint of the sender, those of the
/// receiver, its timeout, and what is asked: 0 and a command, with 0, key and
/// value for a put and 1 and the key for a delete; 1, a key and a consistency; or
/// 2, a statement and a consistency.
pub proof fn requests_are_laid_out(request: RequestEnvelopeV)
    ensures
        wire_codec::request_bytes(request) == bytes::le64(request.request_id) + bytes::le64(
            request.from.node_id,
        ) + wire_fields::text_bytes(request.from.endpoint) + bytes::le64(request.to.node_id)
            + wire_fields::text_bytes(request.to.endpoint) + wire_fields::option_u64_bytes(
            request.timeout_ticks,
        ) + match request.request {
            ClientRequestV::Write(CommandV::Put { key, value }) => seq![0u8, 0u8]
                + wire_fields::text_bytes(key) + wire_fields::text_bytes(value),
            ClientRequestV::Write(CommandV::Delete { key }) => seq![0u8, 1u8]
                + wire_fields::text_bytes(key),
            ClientRequestV::Read { key, consistency } => seq![1u8] + wire_fields::text_bytes(key)
                + consistency_byte(consistency),
            ClientRequestV::Sql { query, read_consistency } => seq![2u8] + wire_fields::text_bytes(
                query,
            ) + consistency_byte(read_consistency),
        },
{
    reveal(wire_codec::address_bytes);
    reveal(wire_codec::command_bytes);
    reveal(wire_codec::request_body_bytes);
    let head = bytes::le64(request.request_id) + bytes::le64(request.from.node_id)
        + wire_fields::text_bytes(request.from.endpoint) + bytes::le64(request.to.node_id)
        + wire_fields::text_bytes(request.to.endpoint) + wire_fields::option_u64_bytes(
        request.timeout_ticks,
    );
    let body = wire_codec::request_body_bytes(request.request);
    assert(wire_codec::request_bytes(request) =~= head + body);
    match request.request {
        ClientRequestV::Write(CommandV::Put { key, value }) => {
            assert(body =~= seq![0u8, 0u8] + wire_fields::text_bytes(key)
                + wire_fields::text_bytes(value));
        },
        ClientRequestV::Write(CommandV::Delete { key }) => {
            assert(body =~= seq![0u8, 1u8] + wire_fields::text_bytes(key));
        },
        ClientRequestV::Read { key, consistency } => {},
        ClientRequestV::Sql { query, read_consistency } => {},
    }
}

/// What a response carries behind its head: a byte for its kind, and its fields
/// in order.
pub open spec fn response_body(response: ClientResponseV) -> Seq<u8> {
    match response {
        ClientResponseV::WriteCommitted { index, committed_nodes } => seq![0u8] + bytes::le64(index)
            + bytes::le64(committed_nodes as u64),
        ClientResponseV::ReadResult { value, consistency } => seq![1u8]
            + wire_fields::option_text_bytes(value) + consistency_byte(consistency),
        ClientResponseV::Redirect { leader } => seq![2u8] + bytes::le64(leader.node_id)
            + wire_fields::text_bytes(leader.endpoint),
        ClientResponseV::TimedOut { operation, index, observed_nodes } => seq![
            3u8,
            if operation == TimeoutOperation::LinearizableRead {
                1u8
            } else {
                0u8
            },
        ] + wire_fields::option_u64_bytes(index) + bytes::le64(observed_nodes as u64),
        ClientResponseV::Overloaded { pending_entries, limit } => seq![4u8] + bytes::le64(
            pending_entries,
        ) + bytes::le64(limit),
        ClientResponseV::RouteError { message } => seq![5u8] + wire_fields::text_bytes(message),
        ClientResponseV::InvalidQuery { message } => seq![6u8] + wire_fields::text_bytes(message),
        ClientResponseV::SqlRows { columns, rows, consistency } => seq![7u8] + bytes::le64(
            columns.len() as u64,
        ) + wire_fields::texts_bytes(columns) + bytes::le64(rows.len() as u64)
            + wire_codec::rows_bytes(rows) + consistency_byte(consistency),
        ClientResponseV::SqlWriteResult { affected_rows, last_index, committed_nodes } => seq![8u8]
            + bytes::le64(affected_rows as u64) + wire_fields::option_u64_bytes(last_index)
            + bytes::le64(committed_nodes as u64),
        ClientResponseV::InternalError { message } => seq![9u8] + wire_fields::text_bytes(message),
    }
}

/// A response is the number of its request, the id and the endpoint of the
/// sender, those of the receiver, and what it carries.
pub proof fn responses_are_laid_out(response: ResponseEnvelopeV)
    ensures
        wire_codec::response_bytes(response) == bytes::le64(response.request_id) + bytes::le64(
            response.from.node_id,
        ) + wire_fields::text_bytes(response.from.endpoint) + bytes::le64(response.to.node_id)
            + wire_fields::text_bytes(response.to.endpoint) + response_body(response.response),
{
    reveal(wire_codec::address_bytes);
    reveal(wire_codec::response_body_bytes);
    let head = bytes::le64(response.request_id) + bytes::le64(response.from.node_id)
        + wire_fields::text_bytes(response.from.endpoint) + bytes::le64(response.to.node_id)
        + wire_fields::text_bytes(response.to.endpoint);
    let body = wire_codec::response_body_bytes(response.response);
    assert(wire_codec::response_bytes(response) =~= head + body);
    assert(body =~= response_body(response.response));
}

/// The piece stands from `p` to `q`.
spec fn stands(b: Seq<u8>, p: int, q: int, piece: Seq<u8>) -> bool {
    0 <= p <= q <= b.len() && b.subrange(p, q) == piece
}

proof fn joined(b: Seq<u8>, p: int, q: int, r: int, x: Seq<u8>, y: Seq<u8>)
    requires
        stands(b, p, q, x),
        stands(b, q, r, y),
    ensures
        stands(b, p, r, x + y),
{
    assert(b.subrange(p, r) =~= b.subrange(p, q) + b.subrange(q, r));
}

proof fn byte_stands(b: Seq<u8>, p: int)
    requires
        0 <= p < b.len(),
    ensures
        stands(b, p, p + 1, seq![b[p]]),
{
    assert(b.subrange(p, p + 1) =~= seq![b[p]]);
}

proof fn number_stands(b: Seq<u8>, p: int, field: Seq<char>)
    requires
        0 <= p <= b.len(),
    ensures
        wire_fields::u64_field(b, p, field) matches Ok((x, q)) ==> stands(b, p, q, bytes::le64(x)),
{
    if b.len() - p >= 8 {
        bytes::u64_rewrites(b, p);
    }
}

proof fn text_stands(b: Seq<u8>, p: int, field: Seq<char>)
    requires
        0 <= p <= b.len(),
    ensures
        wire_fields::text_field(b, p, field) matches Ok((t, q)) ==> stands(
            b,
            p,
            q,
            wire_fields::text_bytes(t),
        ),
{
    reveal(wire_fields::text_field);
    reveal(wire_fields::text_bytes);
    if let Ok((t, end)) = wire_fields::text_field(b, p, field) {
        number_stands(b, p, field);
        let data = b.subrange(p + 8, end);
        decode_utf8_encode_utf8(data);
        joined(b, p, p + 8, end, bytes::le64(data.len() as u64), data);
    }
}

proof fn optional_number_stands(b: Seq<u8>, p: int, field: Seq<char>)
    requires
        0 <= p <= b.len(),
    ensures
        wire_fields::option_u64_field(b, p, field) matches Ok((x, q)) ==> stands(
            b,
            p,
            q,
            wire_fields::option_u64_bytes(x),
        ),
{
    reveal(wire_fields::option_u64_field);
    reveal(wire_fields::option_u64_bytes);
    if let Ok((x, end)) = wire_fields::option_u64_field(b, p, field) {
        byte_stands(b, p);
        if let Some(value) = x {
            number_stands(b, p + 1, field);
            joined(b, p, p + 1, end, seq![1u8], bytes::le64(value));
        }
    }
}

proof fn optional_text_stands(b: Seq<u8>, p: int, field: Seq<char>)
    requires
        0 <= p <= b.len(),
    ensures
        wire_fields::option_text_field(b, p, field) matches Ok((x, q)) ==> stands(
            b,
            p,
            q,
            wire_fields::option_text_bytes(x),
        ),
{
    reveal(wire_fields::option_text_field);
    reveal(wire_fields::option_text_bytes);
    if let Ok((x, end)) = wire_fields::option_text_field(b, p, field) {
        byte_stands(b, p);
        if let Some(t) = x {
            text_stands(b, p + 1, field);
            joined(b, p, p + 1, end, seq![1u8], wire_fields::text_bytes(t));
        }
    }
}

proof fn texts_in_parts(a: Seq<Seq<char>>, c: Seq<Seq<char>>)
    ensures
        wire_fields::texts_bytes(a + c) == wire_fields::texts_bytes(a) + wire_fields::texts_bytes(
            c,
        ),
    decreases c.len(),
{
    if c.len() == 0 {
        assert(a + c =~= a);
        assert(wire_fields::texts_bytes(a) + wire_fields::texts_bytes(c)
            =~= wire_fields::texts_bytes(a));
    } else {
        texts_in_parts(a, c.drop_last());
        assert((a + c).drop_last() =~= a + c.drop_last());
        assert(wire_fields::texts_bytes(a + c) =~= wire_fields::texts_bytes(a)
            + wire_fields::texts_bytes(c));
    }
}

proof fn texts_stand(b: Seq<u8>, p: int, n: nat, field: Seq<char>)
    requires
        0 <= p <= b.len(),
    ensures
        wire_fields::texts_field(b, p, n, field) matches Ok((values, q)) ==> values.len() == n
            && stands(b, p, q, wire_fields::texts_bytes(values)),
    decreases n,
{
    if n == 0 {
        assert(b.subrange(p, p) =~= wire_fields::texts_bytes(Seq::empty()));
    } else if let Ok((values, end)) = wire_fields::texts_field(b, p, n, field) {
        text_stands(b, p, field);
        let (t, q) = wire_fields::text_field(b, p, field)->Ok_0;
        texts_stand(b, q, (n - 1) as nat, field);
        let rest = wire_fields::texts_field(b, q, (n - 1) as nat, field)->Ok_0.0;
        texts_in_parts(seq![t], rest);
        assert(wire_fields::texts_bytes(seq![t]) =~= wire_fields::text_bytes(t)) by {
            reveal_with_fuel(wire_fields::texts_bytes, 2);
            assert(seq![t].drop_last() =~= Seq::<Seq<char>>::empty());
        }
        joined(b, p, q, end, wire_fields::text_bytes(t), wire_fields::texts_bytes(rest));
    }
}

proof fn address_stands(b: Seq<u8>, p: int)
    requires
        0 <= p <= b.len(),
    ensures
        wire_codec::address_field(b, p) matches Ok((address, q)) ==> stands(
            b,
            p,
            q,
            wire_codec::address_bytes(address),
        ),
{
    reveal(wire_codec::address_field);
    reveal(wire_codec::address_bytes);
    if let Ok((address, end)) = wire_codec::address_field(b, p) {
        number_stands(b, p, "node_address.node_id"@);
        text_stands(b, p + 8, "node_address.endpoint"@);
        joined(
            b,
            p,
            p + 8,
            end,
            bytes::le64(address.node_id),
            wire_fields::text_bytes(address.endpoint),
        );
    }
}

proof fn consistency_stands(b: Seq<u8>, p: int)
    requires
        0 <= p <= b.len(),
    ensures
        wire_codec::consistency_field(b, p) matches Ok((consistency, q)) ==> stands(
            b,
            p,
            q,
            seq![wire_codec::consistency_tag(consistency)],
        ),
{
    reveal(wire_codec::consistency_field);
    if p < b.len() {
        byte_stands(b, p);
    }
}

proof fn command_stands(b: Seq<u8>, p: int)
    requires
        0 <= p <= b.len(),
    ensures
        wire_codec::command_field(b, p) matches Ok((command, q)) ==> stands(
            b,
            p,
            q,
            wire_codec::command_bytes(command),
        ),
{
    reveal(wire_codec::command_field);
    reveal(wire_codec::command_bytes);
    if let Ok((command, end)) = wire_codec::command_field(b, p) {
        byte_stands(b, p);
        match command {
            CommandV::Put { key, value } => {
                text_stands(b, p + 1, "command.put.key"@);
                let q = wire_fields::text_field(b, p + 1, "command.put.key"@)->Ok_0.1;
                text_stands(b, q, "command.put.value"@);
                joined(b, p, p + 1, q, seq![0u8], wire_fields::text_bytes(key));
                joined(
                    b,
                    p,
                    q,
                    end,
                    seq![0u8] + wire_fields::text_bytes(key),
                    wire_fields::text_bytes(value),
                );
            },
            CommandV::Delete { key } => {
                text_stands(b, p + 1, "command.delete.key"@);
                joined(b, p, p + 1, end, seq![1u8], wire_fields::text_bytes(key));
            },
        }
    }
}

proof fn request_body_stands(b: Seq<u8>, p: int)
    requires
        0 <= p <= b.len(),
    ensures
        wire_codec::request_body_field(b, p) matches Ok((request, q)) ==> stands(
            b,
            p,
            q,
            wire_codec::request_body_bytes(request),
        ),
{
    reveal(wire_codec::request_body_field);
    reveal(wire_codec::request_body_bytes);
    if let Ok((request, end)) = wire_codec::request_body_field(b, p) {
        byte_stands(b, p);
        match request {
            ClientRequestV::Write(command) => {
                command_stands(b, p + 1);
                joined(b, p, p + 1, end, seq![0u8], wire_codec::command_bytes(command));
            },
            ClientRequestV::Read { key, consistency } => {
                text_stands(b, p + 1, "request.read.key"@);
                let q = wire_fields::text_field(b, p + 1, "request.read.key"@)->Ok_0.1;
                consistency_stands(b, q);
                joined(b, p, p + 1, q, seq![1u8], wire_fields::text_bytes(key));
                joined(
                    b,
                    p,
                    q,
                    end,
                    seq![1u8] + wire_fields::text_bytes(key),
                    seq![wire_codec::consistency_tag(consistency)],
                );
            },
            ClientRequestV::Sql { query, read_consistency } => {
                text_stands(b, p + 1, "request.sql.query"@);
                let q = wire_fields::text_field(b, p + 1, "request.sql.query"@)->Ok_0.1;
                consistency_stands(b, q);
                joined(b, p, p + 1, q, seq![2u8], wire_fields::text_bytes(query));
                joined(
                    b,
                    p,
                    q,
                    end,
                    seq![2u8] + wire_fields::text_bytes(query),
                    seq![wire_codec::consistency_tag(read_consistency)],
                );
            },
        }
    }
}

/// Requests have one form: bytes that are read as a request are those that it is
/// written as, and no others are.
pub proof fn requests_have_one_form(b: Seq<u8>)
    ensures
        wire_codec::decoded_request(b) matches Ok(request) ==> b == wire_codec::request_bytes(
            request,
        ),
{
    reveal(wire_codec::decoded_request);
    if let Ok(request) = wire_codec::decoded_request(b) {
        number_stands(b, 0, "request.request_id"@);
        address_stands(b, 8);
        let p = wire_codec::address_field(b, 8)->Ok_0.1;
        address_stands(b, p);
        let q = wire_codec::address_field(b, p)->Ok_0.1;
        optional_number_stands(b, q, "request.timeout_ticks"@);
        let r = wire_fields::option_u64_field(b, q, "request.timeout_ticks"@)->Ok_0.1;
        request_body_stands(b, r);
        let n = b.len() as int;
        let body = wire_codec::request_body_bytes(request.request);
        let timeout = wire_fields::option_u64_bytes(request.timeout_ticks);
        let to = wire_codec::address_bytes(request.to);
        let from = wire_codec::address_bytes(request.from);
        joined(b, q, r, n, timeout, body);
        joined(b, p, q, n, to, timeout + body);
        joined(b, 8, p, n, from, to + (timeout + body));
        joined(b, 0, 8, n, bytes::le64(request.request_id), from + (to + (timeout + body)));
        assert(b.subrange(0, n) =~= b);
    }
}

proof fn count_stands(b: Seq<u8>, p: int, field: Seq<char>)
    requires
        0 <= p <= b.len(),
    ensures
        wire_codec::count_field(b, p, field) matches Ok((x, q)) ==> q == p + 8 && stands(
            b,
            p,
            q,
            bytes::le64(x as u64),
        ),
{
    reveal(wire_codec::count_field);
    number_stands(b, p, field);
}

proof fn row_stands(b: Seq<u8>, p: int)
    requires
        0 <= p <= b.len(),
    ensures
        wire_codec::row_field(b, p) matches Ok((row, q)) ==> stands(
            b,
            p,
            q,
            wire_codec::row_bytes(row),
        ),
{
    reveal(wire_codec::row_field);
    reveal(wire_codec::row_bytes);
    if let Ok((row, end)) = wire_codec::row_field(b, p) {
        number_stands(b, p, "response.sql_rows.row.columns"@);
        let n = wire_fields::len_field(b, p, "response.sql_rows.row.columns"@)->Ok_0.0;
        texts_stand(b, p + 8, n as nat, "response.sql_rows.row.value"@);
        joined(
            b,
            p,
            p + 8,
            end,
            bytes::le64(row.len() as u64),
            wire_fields::texts_bytes(row),
        );
    }
}

proof fn rows_in_parts(a: Seq<Seq<Seq<char>>>, c: Seq<Seq<Seq<char>>>)
    ensures
        wire_codec::rows_bytes(a + c) == wire_codec::rows_bytes(a) + wire_codec::rows_bytes(c),
    decreases c.len(),
{
    if c.len() == 0 {
        assert(a + c =~= a);
        assert(wire_codec::rows_bytes(a) + wire_codec::rows_bytes(c) =~= wire_codec::rows_bytes(a));
    } else {
        rows_in_parts(a, c.drop_last());
        assert((a + c).drop_last() =~= a + c.drop_last());
        assert(wire_codec::rows_bytes(a + c) =~= wire_codec::rows_bytes(a)
            + wire_codec::rows_bytes(c));
    }
}

proof fn rows_stand(b: Seq<u8>, p: int, n: nat)
    requires
        0 <= p <= b.len(),
    ensures
        wire_codec::rows_field(b, p, n) matches Ok((rows, q)) ==> rows.len() == n && stands(
            b,
            p,
            q,
            wire_codec::rows_bytes(rows),
        ),
    decreases n,
{
    if n == 0 {
        assert(b.subrange(p, p) =~= wire_codec::rows_bytes(Seq::empty()));
    } else if let Ok((rows, end)) = wire_codec::rows_field(b, p, n) {
        row_stands(b, p);
        let (row, q) = wire_codec::row_field(b, p)->Ok_0;
        rows_stand(b, q, (n - 1) as nat);
        let rest = wire_codec::rows_field(b, q, (n - 1) as nat)->Ok_0.0;
        rows_in_parts(seq![row], rest);
        assert(wire_codec::rows_bytes(seq![row]) =~= wire_codec::row_bytes(row)) by {
            reveal_with_fuel(wire_codec::rows_bytes, 2);
            assert(seq![row].drop_last() =~= Seq::<Seq<Seq<char>>>::empty());
        }
        joined(b, p, q, end, wire_codec::row_bytes(row), wire_codec::rows_bytes(rest));
    }
}

proof fn sql_rows_stand(b: Seq<u8>, p: int)
    requires
        0 <= p <= b.len(),
    ensures
        wire_codec::sql_rows_field(b, p) matches Ok((response, q)) ==> response is SqlRows && stands(
            b,
            p,
            q,
            bytes::le64(response->columns.len() as u64) + (wire_fields::texts_bytes(
                response->columns,
            ) + (bytes::le64(response->rows.len() as u64) + (wire_codec::rows_bytes(response->rows)
                + seq![wire_codec::consistency_tag(response->SqlRows_consistency)]))),
        ),
{
    reveal(wire_codec::sql_rows_field);
    if let Ok((response, end)) = wire_codec::sql_rows_field(b, p) {
        number_stands(b, p, "response.sql_rows.columns"@);
        let n = wire_fields::len_field(b, p, "response.sql_rows.columns"@)->Ok_0.0;
        texts_stand(b, p + 8, n as nat, "response.sql_rows.column"@);
        let q = wire_fields::texts_field(
            b,
            p + 8,
            n as nat,
            "response.sql_rows.column"@,
        )->Ok_0.1;
        number_stands(b, q, "response.sql_rows.rows"@);
        let m = wire_fields::len_field(b, q, "response.sql_rows.rows"@)->Ok_0.0;
        rows_stand(b, q + 8, m as nat);
        let r = wire_codec::rows_field(b, q + 8, m as nat)->Ok_0.1;
        consistency_stands(b, r);
        let tag = seq![wire_codec::consistency_tag(response->SqlRows_consistency)];
        let rows = wire_codec::rows_bytes(response->rows);
        let count = bytes::le64(response->rows.len() as u64);
        let columns = wire_fields::texts_bytes(response->columns);
        joined(b, q + 8, r, end, rows, tag);
        joined(b, q, q + 8, end, count, rows + tag);
        joined(b, p + 8, q, end, columns, count + (rows + tag));
        joined(
            b,
            p,
            p + 8,
            end,
            bytes::le64(response->columns.len() as u64),
            columns + (count + (rows + tag)),
        );
    }
}

/// What stands behind the byte for the kind of a response.
spec fn behind_the_kind(response: ClientResponseV) -> Seq<u8> {
    wire_codec::response_body_bytes(response).skip(1)
}

proof fn kinds_lead(response: ClientResponseV, tag: u8, rest: Seq<u8>)
    requires
        wire_codec::response_body_bytes(response) == seq![tag] + rest,
    ensures
        behind_the_kind(response) == rest,
        wire_codec::response_body_bytes(response) == seq![tag] + behind_the_kind(response),
{
    assert((seq![tag] + rest).skip(1) =~= rest);
}

proof fn counted_responses_stand(b: Seq<u8>, p: int)
    requires
        0 <= p <= b.len(),
    ensures
        wire_codec::write_committed_field(b, p) matches Ok((response, q)) ==> response is WriteCommitted
            && stands(
            b,
            p,
            q,
            bytes::le64(response->WriteCommitted_index) + bytes::le64(
                response->WriteCommitted_committed_nodes as u64,
            ),
        ),
        wire_codec::overloaded_field(b, p) matches Ok((response, q)) ==> response is Overloaded
            && stands(
            b,
            p,
            q,
            bytes::le64(response->pending_entries) + bytes::le64(response->limit),
        ),
        wire_codec::sql_write_field(b, p) matches Ok((response, q)) ==> response is SqlWriteResult
            && stands(
            b,
            p,
            q,
            bytes::le64(response->affected_rows as u64) + (wire_fields::option_u64_bytes(
                response->last_index,
            ) + bytes::le64(response->SqlWriteResult_committed_nodes as u64)),
        ),
{
    reveal(wire_codec::write_committed_field);
    reveal(wire_codec::overloaded_field);
    reveal(wire_codec::sql_write_field);
    if let Ok((response, end)) = wire_codec::write_committed_field(b, p) {
        number_stands(b, p, "response.write_committed.index"@);
        count_stands(b, p + 8, "response.write_committed.committed_nodes"@);
        joined(
            b,
            p,
            p + 8,
            end,
            bytes::le64(response->WriteCommitted_index),
            bytes::le64(response->WriteCommitted_committed_nodes as u64),
        );
    }
    if let Ok((response, end)) = wire_codec::overloaded_field(b, p) {
        number_stands(b, p, "response.overloaded.pending_entries"@);
        number_stands(b, p + 8, "response.overloaded.limit"@);
        joined(
            b,
            p,
            p + 8,
            end,
            bytes::le64(response->pending_entries),
            bytes::le64(response->limit),
        );
    }
    if let Ok((response, end)) = wire_codec::sql_write_field(b, p) {
        count_stands(b, p, "response.sql_write.affected_rows"@);
        optional_number_stands(b, p + 8, "response.sql_write.last_index"@);
        let q = wire_fields::option_u64_field(
            b,
            p + 8,
            "response.sql_write.last_index"@,
        )->Ok_0.1;
        count_stands(b, q, "response.sql_write.committed_nodes"@);
        let nodes = bytes::le64(response->SqlWriteResult_committed_nodes as u64);
        let last = wire_fields::option_u64_bytes(response->last_index);
        joined(b, p + 8, q, end, last, nodes);
        joined(b, p, p + 8, end, bytes::le64(response->affected_rows as u64), last + nodes);
    }
}

proof fn other_responses_stand(b: Seq<u8>, p: int)
    requires
        0 <= p <= b.len(),
    ensures
        wire_codec::read_result_field(b, p) matches Ok((response, q)) ==> response is ReadResult
            && stands(
            b,
            p,
            q,
            wire_fields::option_text_bytes(response->value) + seq![
                wire_codec::consistency_tag(response->ReadResult_consistency),
            ],
        ),
        wire_codec::timed_out_field(b, p) matches Ok((response, q)) ==> response is TimedOut
            && stands(
            b,
            p,
            q,
            seq![wire_codec::operation_tag(response->operation)] + (wire_fields::option_u64_bytes(
                response->TimedOut_index,
            ) + bytes::le64(response->observed_nodes as u64)),
        ),
{
    reveal(wire_codec::read_result_field);
    reveal(wire_codec::timed_out_field);
    reveal(wire_codec::operation_field);
    if let Ok((response, end)) = wire_codec::read_result_field(b, p) {
        optional_text_stands(b, p, "response.read.value"@);
        let q = wire_fields::option_text_field(b, p, "response.read.value"@)->Ok_0.1;
        consistency_stands(b, q);
        joined(
            b,
            p,
            q,
            end,
            wire_fields::option_text_bytes(response->value),
            seq![wire_codec::consistency_tag(response->ReadResult_consistency)],
        );
    }
    if let Ok((response, end)) = wire_codec::timed_out_field(b, p) {
        byte_stands(b, p);
        optional_number_stands(b, p + 1, "response.timed_out.index"@);
        let q = wire_fields::option_u64_field(b, p + 1, "response.timed_out.index"@)->Ok_0.1;
        count_stands(b, q, "response.timed_out.observed_nodes"@);
        let nodes = bytes::le64(response->observed_nodes as u64);
        let index = wire_fields::option_u64_bytes(response->TimedOut_index);
        joined(b, p + 1, q, end, index, nodes);
        joined(
            b,
            p,
            p + 1,
            end,
            seq![wire_codec::operation_tag(response->operation)],
            index + nodes,
        );
    }
}

proof fn plain_responses_stand(b: Seq<u8>, p: int, tag: u8)
    requires
        0 <= p <= b.len(),
        tag == 2 || tag == 5 || tag == 6 || tag == 9,
    ensures
        wire_codec::plain_response_field(b, p, tag) matches Ok((response, q)) ==> {
            &&& wire_codec::response_body_bytes(response) == seq![tag] + behind_the_kind(response)
            &&& stands(b, p, q, behind_the_kind(response))
        },
{
    reveal(wire_codec::plain_response_field);
    reveal(wire_codec::response_body_bytes);
    if let Ok((response, end)) = wire_codec::plain_response_field(b, p, tag) {
        match response {
            ClientResponseV::Redirect { leader } => {
                address_stands(b, p);
                kinds_lead(response, tag, wire_codec::address_bytes(leader));
            },
            ClientResponseV::RouteError { message } => {
                text_stands(b, p, "response.route_error.message"@);
                kinds_lead(response, tag, wire_fields::text_bytes(message));
            },
            ClientResponseV::InvalidQuery { message } => {
                text_stands(b, p, "response.invalid_query.message"@);
                kinds_lead(response, tag, wire_fields::text_bytes(message));
            },
            ClientResponseV::InternalError { message } => {
                text_stands(b, p, "response.internal_error.message"@);
                kinds_lead(response, tag, wire_fields::text_bytes(message));
            },
            _ => {},
        }
    }
}

proof fn response_body_stands(b: Seq<u8>, p: int)
    requires
        0 <= p <= b.len(),
    ensures
        wire_codec::response_body_field(b, p) matches Ok((response, q)) ==> stands(
            b,
            p,
            q,
            wire_codec::response_body_bytes(response),
        ),
{
    reveal(wire_codec::response_body_field);
    if let Ok((response, end)) = wire_codec::response_body_field(b, p) {
        byte_stands(b, p);
        let tag = b[p];
        if tag == 2 || tag == 5 || tag == 6 || tag == 9 {
            plain_responses_stand(b, p + 1, tag);
        } else {
            counted_responses_stand(b, p + 1);
            other_responses_stand(b, p + 1);
            sql_rows_stand(b, p + 1);
            assert(wire_codec::response_body_bytes(response) == seq![tag] + behind_the_kind(
                response,
            ) && stands(b, p + 1, end, behind_the_kind(response))) by {
                reveal(wire_codec::response_body_bytes);
                kinds_lead(
                    response,
                    tag,
                    b.subrange(p + 1, end),
                );
            }
        }
        joined(b, p, p + 1, end, seq![tag], behind_the_kind(response));
    }
}

/// Responses have one form: bytes that are read as a response are those that it
/// is written as, and no others are.
pub proof fn responses_have_one_form(b: Seq<u8>)
    ensures
        wire_codec::decoded_response(b) matches Ok(response) ==> b == wire_codec::response_bytes(
            response,
        ),
{
    reveal(wire_codec::decoded_response);
    if let Ok(response) = wire_codec::decoded_response(b) {
        number_stands(b, 0, "response.request_id"@);
        address_stands(b, 8);
        let p = wire_codec::address_field(b, 8)->Ok_0.1;
        address_stands(b, p);
        let q = wire_codec::address_field(b, p)->Ok_0.1;
        response_body_stands(b, q);
        let n = b.len() as int;
        let body = wire_codec::response_body_bytes(response.response);
        let to = wire_codec::address_bytes(response.to);
        let from = wire_codec::address_bytes(response.from);
        joined(b, p, q, n, to, body);
        joined(b, 8, p, n, from, to + body);
        joined(b, 0, 8, n, bytes::le64(response.request_id), from + (to + body));
        assert(b.subrange(0, n) =~= b);
    }
}

/// Bytes that come to `/anvildb.v1.Api/Handle` and are a request are served as
/// that request, and answered with the bytes of its response. Bytes to any other
/// method, and bytes that are no request, change nothing and are answered with an
/// error that says so.
pub proof fn bytes_are_served_as_requests(
    api: ApiV,
    method_path: Seq<char>,
    request: RequestEnvelopeV,
    payload: Seq<u8>,
)
    requires
        wire_laws::request_fits(request),
    ensures
        method_path == "/anvildb.v1.Api/Handle"@ && payload == wire_codec::request_bytes(request)
            ==> transport::served(api, method_path, payload) == (
            api.handle(request).0,
            Ok::<Seq<u8>, TransportErrorV>(wire_codec::response_bytes(api.handle(request).1)),
        ),
        method_path != "/anvildb.v1.Api/Handle"@ ==> transport::served(api, method_path, payload)
            == (
            api,
            Err::<Seq<u8>, TransportErrorV>(
                TransportErrorV::Remote("unsupported gRPC method path: "@ + method_path),
            ),
        ),
        method_path == "/anvildb.v1.Api/Handle"@ && (forall|other: RequestEnvelopeV|
            payload != #[trigger] wire_codec::request_bytes(other)) ==> {
            &&& transport::served(api, method_path, payload).0 == api
            &&& exists|why: Seq<char>|
                transport::served(api, method_path, payload).1 == Err::<Seq<u8>, TransportErrorV>(
                    TransportErrorV::Remote(#[trigger] ("invalid gRPC payload: "@ + why)),
                )
        },
{
    wire_laws::request_reads_back(request);
    requests_have_one_form(payload);
    if method_path == "/anvildb.v1.Api/Handle"@ && (forall|other: RequestEnvelopeV|
        payload != #[trigger] wire_codec::request_bytes(other)) {
        match wire_codec::decoded_request(payload) {
            Ok(other) => {
                assert(payload != wire_codec::request_bytes(other));
            },
            Err(why) => {
                let text = "invalid gRPC payload: "@ + why;
            },
        }
    }
}

/// Bytes that come back and are a response are read as that response, errors are
/// handed on as they are, and any other bytes are an error that says so.
pub proof fn replies_are_read_as_responses(
    response: ResponseEnvelopeV,
    error: TransportErrorV,
    payload: Seq<u8>,
)
    requires
        wire_laws::response_fits(response),
    ensures
        transport::read_reply(Err(error)) == Err::<ResponseEnvelopeV, TransportErrorV>(error),
        payload == wire_codec::response_bytes(response) ==> transport::read_reply(Ok(payload))
            == Ok::<ResponseEnvelopeV, TransportErrorV>(response),
        (forall|other: ResponseEnvelopeV| payload != #[trigger] wire_codec::response_bytes(other))
            ==> exists|why: Seq<char>|
            transport::read_reply(Ok(payload)) == Err::<ResponseEnvelopeV, TransportErrorV>(
                TransportErrorV::Remote(#[trigger] ("invalid gRPC payload: "@ + why)),
            ),
{
    wire_laws::response_reads_back(response);
    responses_have_one_form(payload);
    if forall|other: ResponseEnvelopeV| payload != #[trigger] wire_codec::response_bytes(other) {
        match wire_codec::decoded_response(payload) {
            Ok(other) => {
                assert(payload != wire_codec::response_bytes(other));
            },
            Err(why) => {
                let text = "invalid gRPC payload: "@ + why;
            },
        }
    }
}

/// A field that needs more bytes than there are is refused with its name, with
/// how many it needs and with how many there are.
pub proof fn short_fields_say_what_they_miss(b: Seq<u8>, p: int, field: Seq<char>)
    requires
        0 <= p <= b.len(),
    ensures
        p == b.len() ==> wire_fields::u8_field(b, p, field) == Err::<(u8, int), Seq<char>>(
            "field "@ + field + " expected "@ + text::decimal(1) + " bytes but "@ + text::decimal(0)
                + " remain"@,
        ),
        b.len() - p < 8 ==> {
            let message = "field "@ + field + " expected "@ + text::decimal(8) + " bytes but "@
                + text::decimal((b.len() - p) as nat) + " remain"@;
            &&& wire_fields::u64_field(b, p, field) == Err::<(u64, int), Seq<char>>(message)
            &&& wire_fields::text_field(b, p, field) == Err::<(Seq<char>, int), Seq<char>>(message)
        },
        b.len() - p >= 8 ==> {
            let len = number(b.subrange(p, p + 8));
            let data = b.subrange(p + 8, p + 8 + len);
            &&& wire_fields::u64_field(b, p, field) == Ok::<(u64, int), Seq<char>>(
                (len as u64, p + 8),
            )
            &&& len <= usize::MAX && b.len() - p - 8 < len ==> wire_fields::text_field(b, p, field)
                == Err::<(Seq<char>, int), Seq<char>>(
                "field "@ + field + " expected "@ + text::decimal(len) + " bytes but "@
                    + text::decimal((b.len() - p - 8) as nat) + " remain"@,
            )
            &&& len <= usize::MAX && b.len() - p - 8 >= len && valid_utf8(data)
                ==> wire_fields::text_field(b, p, field) == Ok::<(Seq<char>, int), Seq<char>>(
                (decode_utf8(data), p + 8 + len),
            )
            &&& len <= usize::MAX && b.len() - p - 8 >= len && !valid_utf8(data)
                ==> wire_fields::text_field(b, p, field) == Err::<(Seq<char>, int), Seq<char>>(
                "field "@ + field + " is not utf8: "@ + text::utf8_error_form(data),
            )
        },
{
    reveal(wire_fields::text_field);
    if b.len() - p >= 8 {
        file_layout::numbers_are_read_where_they_stand(b, p);
    }
}

/// A byte that stands for nothing in its place is refused with what it should
/// have been and with its number.
pub proof fn unknown_bytes_are_named(b: Seq<u8>, p: int, field: Seq<char>)
    requires
        0 <= p < b.len(),
    ensures
        b[p] > 1 ==> {
            let flag = "field "@ + field + " has invalid option flag "@ + text::decimal(
                b[p] as nat,
            );
            &&& wire_fields::option_u64_field(b, p, field) == Err::<(Option<u64>, int), Seq<char>>(
                flag,
            )
            &&& wire_fields::option_text_field(b, p, field) == Err::<
                (Option<Seq<char>>, int),
                Seq<char>,
            >(flag)
            &&& wire_codec::consistency_field(b, p) == Err::<(ReadConsistency, int), Seq<char>>(
                "invalid read consistency tag "@ + text::decimal(b[p] as nat),
            )
            &&& wire_codec::operation_field(b, p) == Err::<(TimeoutOperation, int), Seq<char>>(
                "invalid timeout operation tag "@ + text::decimal(b[p] as nat),
            )
            &&& wire_codec::command_field(b, p) == Err::<(CommandV, int), Seq<char>>(
                "invalid command tag "@ + text::decimal(b[p] as nat),
            )
        },
        b[p] > 2 ==> wire_codec::request_body_field(b, p) == Err::<
            (ClientRequestV, int),
            Seq<char>,
        >("invalid request tag "@ + text::decimal(b[p] as nat)),
        b[p] > 9 ==> wire_codec::response_body_field(b, p) == Err::<
            (ClientResponseV, int),
            Seq<char>,
        >("invalid response tag "@ + text::decimal(b[p] as nat)),
{
    reveal(wire_fields::option_u64_field);
    reveal(wire_fields::option_text_field);
    reveal(wire_codec::consistency_field);
    reveal(wire_codec::operation_field);
    reveal(wire_codec::command_field);
    reveal(wire_codec::request_body_field);
    reveal(wire_codec::response_body_field);
}

} // verus!
