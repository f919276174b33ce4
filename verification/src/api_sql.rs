//! What the statements of clients come to, in terms of the rows of the table.
use vstd::prelude::*;

use crate::api_health;
use crate::api_health::{can_be_recorded, state_with_pending};
use crate::api_laws;
use crate::api_model;
use crate::api_model::ApiV;
use crate::api_types::{
    AddressV, ClientRequestV, ClientResponseV, ReadConsistency, RequestEnvelopeV,
};
use crate::api_versions;
use crate::api_versions::in_step;
use crate::mvcc;
use crate::ordered;
use crate::raft_health;
use crate::raft_laws;
use crate::raft_model;
use crate::sql_ast::{
    ColumnName, ComparisonOp, KvExecutionPlanV, PredicateV, SqlStatementV, TableName,
};
use crate::sql_parser;
use crate::sql_plan;
use crate::state_machine;
use crate::text;
use crate::types::{CommandV, NodeId};

verus! {

/// The text in a column of a row.
pub open spec fn cell(key: Seq<char>, value: Seq<char>, column: ColumnName) -> Seq<char> {
    if column == ColumnName::Key {
        key
    } else {
        value
    }
}

/// The text in the column is the literal, or is another one where the comparison
/// asks for that.
pub open spec fn compares(found: Seq<char>, op: ComparisonOp, literal: Seq<char>) -> bool {
    (found == literal) == (op == ComparisonOp::Eq)
}

/// A request at a known address is served as it asks: a write as that write, a
/// read of that key and a statement with that text, each with the asked
/// consistency and timeout; and a request at another address is not served.
pub proof fn requests_are_served_as_asked(a: ApiV, envelope: RequestEnvelopeV)
    ensures
        ({
            let (after, answer) = a.handle(envelope);
            let to = envelope.to.node_id;
            let wait = envelope.timeout_ticks;
            if api_model::address_of(a.addresses, to) == Some(envelope.to) {
                match envelope.request {
                    ClientRequestV::Write(command) => (after, answer.response) == a.write(
                        to,
                        command,
                        wait,
                    ),
                    ClientRequestV::Read { key, consistency } => (after, answer.response)
                        == a.read(to, key, consistency, wait),
                    ClientRequestV::Sql { query, read_consistency } => (after, answer.response)
                        == a.sql(to, query, read_consistency, wait),
                }
            } else {
                after == a && answer.response is RouteError
            }
        }),
{
}

/// A text that is no statement changes nothing and is answered with why; any
/// other is carried out as the statement that it is: an INSERT as a write of its
/// key and value, an UPDATE and a DELETE on the rows that meet their condition,
/// and a SELECT with its columns, its condition and the asked consistency.
pub proof fn texts_are_carried_out_as_statements(
    a: ApiV,
    to: NodeId,
    query: Seq<char>,
    consistency: ReadConsistency,
    wait: Option<u64>,
)
    ensures
        match sql_parser::parsed(query) {
            Err(message) => a.sql(to, query, consistency, wait) == (
                a,
                ClientResponseV::InvalidQuery { message: "sql error: "@ + message },
            ),
            Ok(SqlStatementV::Insert { key, value, .. }) => a.sql(to, query, consistency, wait)
                == a.insert(to, CommandV::Put { key, value }, wait),
            Ok(SqlStatementV::Update { value, predicate, .. }) => a.sql(
                to,
                query,
                consistency,
                wait,
            ) == a.mutate(to, predicate, Some(value), wait),
            Ok(SqlStatementV::Delete { predicate, .. }) => a.sql(to, query, consistency, wait)
                == a.mutate(to, predicate, None, wait),
            Ok(SqlStatementV::Select { projections, predicate, .. }) => a.sql(
                to,
                query,
                consistency,
                wait,
            ) == a.select(to, projections, predicate, consistency, wait),
        },
{
    if let Ok(statement) = sql_parser::parsed(query) {
        sql_plan::planned_statements_lower(statement);
    }
}

/// Rows that are selected keep their order.
proof fn selection_keeps_order(
    rows: Seq<(Seq<char>, Seq<char>)>,
    predicate: Option<PredicateV>,
)
    requires
        ordered::ascending(rows),
    ensures
        ordered::ascending(api_model::selected(rows, predicate)),
    decreases rows.len(),
{
    if rows.len() > 0 {
        let rest = rows.drop_last();
        let last = rows.last();
        assert(ordered::ascending(rest)) by {
            assert forall|a: int, b: int| 0 <= a < b < rest.len() implies text::text_lt(
                #[trigger] rest[a].0,
                #[trigger] rest[b].0,
            ) by {
                assert(text::text_lt(rows[a].0, rows[b].0));
            }
        }
        selection_keeps_order(rest, predicate);
        let before = api_model::selected(rest, predicate);
        let after = api_model::selected(rows, predicate);
        assert forall|a: int, b: int| 0 <= a < b < after.len() implies text::text_lt(
            #[trigger] after[a].0,
            #[trigger] after[b].0,
        ) by {
            if b < before.len() {
                assert(text::text_lt(before[a].0, before[b].0));
            } else {
                api_laws::selected_rows_meet_the_predicate(rest, predicate, before[a]);
                assert(before.contains(before[a]));
                let k = choose|k: int| 0 <= k < rest.len() && rest[k] == before[a];
                assert(text::text_lt(rows[k].0, rows[rows.len() - 1].0));
            }
        }
    }
}

/// The rows of an answer, in plain words: from rows in key order, those whose
/// text in the column of the condition compares as asked, still in key order;
/// and of each of them one cell for each asked column, in the asked order.
pub proof fn answers_show_the_matching_rows(
    rows: Seq<(Seq<char>, Seq<char>)>,
    columns: Seq<ColumnName>,
    predicate: Option<PredicateV>,
)
    requires
        ordered::ascending(rows),
    ensures
        ({
            let found = api_model::selected(rows, predicate);
            let cells = api_model::projections(found, columns);
            &&& ordered::ascending(found)
            &&& forall|key: Seq<char>, value: Seq<char>| #[trigger]
                found.contains((key, value)) <==> rows.contains((key, value)) && (predicate matches Some(
                    p,
                ) ==> compares(cell(key, value, p.column), p.op, p.value))
            &&& cells.len() == found.len()
            &&& forall|i: int| 0 <= i < found.len() ==> (#[trigger] cells[i]).len() == columns.len()
            &&& forall|i: int, j: int|
                0 <= i < found.len() && 0 <= j < columns.len() ==> #[trigger] cells[i][j] == cell(
                    found[i].0,
                    found[i].1,
                    columns[j],
                )
        }),
{
    let found = api_model::selected(rows, predicate);
    selection_keeps_order(rows, predicate);
    assert forall|key: Seq<char>, value: Seq<char>| #[trigger]
        found.contains((key, value)) <==> rows.contains((key, value)) && (predicate matches Some(
            p,
        ) ==> compares(cell(key, value, p.column), p.op, p.value)) by {
        api_laws::selected_rows_meet_the_predicate(rows, predicate, (key, value));
        if let Some(p) = predicate {
            sql_plan::conditions_look_at_their_column(key, value, value, p.value);
        }
    }
}

/// An eventual SELECT at a member, in plain words: it is answered with the asked
/// column names, and with the asked cells of exactly the rows that the member has
/// committed and that compare as asked, in key order.
pub proof fn eventual_selects_show_the_matching_rows(
    a: ApiV,
    to: NodeId,
    columns: Seq<ColumnName>,
    predicate: Option<PredicateV>,
    wait: Option<u64>,
) -> (found: Seq<(Seq<char>, Seq<char>)>)
    requires
        in_step(a),
        raft_model::has_member(a.cluster.nodes, to),
    ensures
        ({
            let state = a.cluster.nodes[raft_model::position(a.cluster.nodes, to)].state;
            let response = a.select(to, columns, predicate, ReadConsistency::Eventual, wait).1;
            &&& response matches ClientResponseV::SqlRows { columns: names, rows, consistency }
            &&& consistency == ReadConsistency::Eventual
            &&& names.len() == columns.len()
            &&& forall|j: int|
                0 <= j < columns.len() ==> #[trigger] names[j] == if columns[j] == ColumnName::Key {
                    "key"@
                } else {
                    "value"@
                }
            &&& ordered::ascending(found)
            &&& forall|key: Seq<char>, value: Seq<char>| #[trigger]
                found.contains((key, value)) <==> state_machine::lookup(state, key) == Some(value)
                    && (predicate matches Some(p) ==> compares(
                    cell(key, value, p.column),
                    p.op,
                    p.value,
                ))
            &&& rows.len() == found.len()
            &&& forall|i: int| 0 <= i < found.len() ==> (#[trigger] rows[i]).len() == columns.len()
            &&& forall|i: int, j: int|
                0 <= i < found.len() && 0 <= j < columns.len() ==> #[trigger] rows[i][j] == cell(
                    found[i].0,
                    found[i].1,
                    columns[j],
                )
        }),
{
    let rows = api_versions::eventual_queries_return_the_member_state(
        a,
        to,
        columns,
        predicate,
        wait,
    );
    answers_show_the_matching_rows(rows, columns, predicate);
    assert forall|j: int| 0 <= j < columns.len() implies #[trigger] sql_plan::headers(columns)[j]
        == if columns[j] == ColumnName::Key {
        "key"@
    } else {
        "value"@
    } by {
        sql_plan::cells_are_what_is_asked_for(Seq::empty(), Seq::empty(), columns, j);
    }
    api_model::selected(rows, predicate)
}

/// A linearizable SELECT that is answered, in plain words: the same of what the
/// leader has committed.
pub proof fn linearizable_selects_show_the_matching_rows(
    a: ApiV,
    to: NodeId,
    columns: Seq<ColumnName>,
    predicate: Option<PredicateV>,
    wait: Option<u64>,
) -> (found: Seq<(Seq<char>, Seq<char>)>)
    requires
        in_step(a),
        a.room_to_read(to, ReadConsistency::Linearizable, wait),
    ensures
        ({
            let (after, response) = a.select(
                to,
                columns,
                predicate,
                ReadConsistency::Linearizable,
                wait,
            );
            let state = after.cluster.nodes[after.cluster.leader_at()].state;
            response matches ClientResponseV::SqlRows { rows, .. } ==> {
                &&& ordered::ascending(found)
                &&& forall|key: Seq<char>, value: Seq<char>| #[trigger]
                    found.contains((key, value)) <==> state_machine::lookup(state, key) == Some(
                        value,
                    ) && (predicate matches Some(p) ==> compares(
                        cell(key, value, p.column),
                        p.op,
                        p.value,
                    ))
                &&& rows.len() == found.len()
                &&& forall|i: int|
                    0 <= i < found.len() ==> (#[trigger] rows[i]).len() == columns.len()
                &&& forall|i: int, j: int|
                    0 <= i < found.len() && 0 <= j < columns.len() ==> #[trigger] rows[i][j]
                        == cell(found[i].0, found[i].1, columns[j])
            }
        }),
{
    let rows = api_versions::linearizable_queries_return_the_state(
        a,
        to,
        columns,
        predicate,
        wait,
    );
    let response = a.select(to, columns, predicate, ReadConsistency::Linearizable, wait).1;
    if response is SqlRows {
        answers_show_the_matching_rows(rows, columns, predicate);
    }
    api_model::selected(rows, predicate)
}

/// An UPDATE or DELETE in a healthy cluster, in plain words: exactly the keys
/// whose committed row compares as asked get the new value, or go; every other
/// key stays as it was, with what was pending; and as many rows are reported as
/// there are such keys.
pub proof fn mutations_change_the_matching_rows(
    a: ApiV,
    predicate: PredicateV,
    value: Option<Seq<char>>,
    wait: Option<u64>,
    key: Seq<char>,
) -> (rows: Seq<(Seq<char>, Seq<char>)>)
    requires
        in_step(a),
        raft_health::healthy(a.cluster),
        a.affected(predicate).len() <= usize::MAX,
        a.affected(predicate).len() > 0 ==> a.cluster.log_room(a.affected(predicate).len() as int),
        a.pending() < a.config.max_pending_entries,
        forall|k: int|
            0 <= k < a.affected(predicate).len() ==> can_be_recorded(
                api_model::row_command((#[trigger] a.affected(predicate)[k]).0, value),
            ),
    ensures
        ({
            let leader = a.cluster.nodes[a.cluster.leader_at()];
            let (after, response) = a.mutate(a.cluster.leader_id, predicate, value, wait);
            let next = after.cluster.nodes[after.cluster.leader_at()];
            let before = state_machine::lookup(leader.state, key);
            let met = before matches Some(v) && compares(
                cell(key, v, predicate.column),
                predicate.op,
                predicate.value,
            );
            &&& ordered::ascending(rows)
            &&& forall|k: Seq<char>, v: Seq<char>| #[trigger]
                rows.contains((k, v)) <==> state_machine::lookup(leader.state, k) == Some(v)
                    && compares(cell(k, v, predicate.column), predicate.op, predicate.value)
            &&& response matches ClientResponseV::SqlWriteResult { affected_rows, .. }
            &&& affected_rows == rows.len()
            &&& met ==> state_machine::lookup(next.state, key) == value
            &&& !met && rows.len() > 0 ==> state_machine::lookup(next.state, key)
                == state_machine::lookup(state_with_pending(a.cluster), key)
            &&& rows.len() == 0 ==> after.cluster == a.cluster
        }),
{
    let leader = a.cluster.nodes[a.cluster.leader_at()];
    let commit = leader.commit_index;
    raft_laws::leader_has_place(a.cluster);
    api_versions::prepared_versions_show(a, a.cluster.leader_id);
    let b = a.in_step_with_the_leader();
    let all = b.mvcc.rows(commit);
    let rows = a.affected(predicate);
    api_versions::keys_can_be_sorted(b);
    mvcc::rows_of_a_catalog(b.mvcc, commit, Seq::empty(), Seq::empty());
    answers_show_the_matching_rows(all, Seq::empty(), Some(predicate));
    assert forall|k: Seq<char>, v: Seq<char>| #[trigger] rows.contains((k, v))
        <==> state_machine::lookup(leader.state, k) == Some(v) && compares(
        cell(k, v, predicate.column),
        predicate.op,
        predicate.value,
    ) by {
        mvcc::rows_of_a_catalog(b.mvcc, commit, k, v);
        assert(b.mvcc.read(k, commit) == state_machine::lookup(leader.state, k));
    }
    let before = state_machine::lookup(leader.state, key);
    let v = if before is Some {
        before->0
    } else {
        Seq::empty()
    };
    api_health::healthy_mutations_write_the_matching_rows(
        a,
        predicate,
        value,
        wait,
        key,
        (key, v),
    );
    let met = before is Some && compares(cell(key, v, predicate.column), predicate.op, predicate.value);
    if met {
        assert(rows.contains((key, v)));
        let k = choose|k: int| 0 <= k < rows.len() && rows[k] == (key, v);
        assert(rows[k].0 == key);
    } else if exists|k: int| 0 <= k < rows.len() && (#[trigger] rows[k]).0 == key {
        let k = choose|k: int| 0 <= k < rows.len() && (#[trigger] rows[k]).0 == key;
        assert(rows.contains((key, rows[k].1)));
    }
    rows
}

/// Where nothing is pending, what is committed is all that there is.
pub proof fn nothing_pending_changes_nothing(a: ApiV)
    requires
        a.cluster.wf(),
        ({
            let leader = a.cluster.nodes[a.cluster.leader_at()];
            leader.log.last_index() == leader.commit_index
        }),
    ensures
        state_with_pending(a.cluster) == a.cluster.nodes[a.cluster.leader_at()].state,
        a.pending() == 0,
{
    raft_laws::leader_has_place(a.cluster);
    let leader = a.cluster.nodes[a.cluster.leader_at()];
    assert(a.cluster.member_ok(a.cluster.leader_at()));
    assert(leader.log.last_index() == leader.log.base_index + leader.log.entries.len());
    assert(leader.log.entries.skip(leader.commit_index - leader.log.base_index) =~= Seq::empty());
}

/// Whatever state the cluster is in, an UPDATE or DELETE at the leader writes the
/// rows that the leader has committed and that compare as asked, one after the
/// other in key order; and nothing else of the cluster has changed before the
/// first of them.
pub proof fn mutations_write_the_rows_in_key_order(
    a: ApiV,
    predicate: PredicateV,
    value: Option<Seq<char>>,
    wait: Option<u64>,
) -> (r: (ApiV, Seq<(Seq<char>, Seq<char>)>))
    requires
        in_step(a),
    ensures
        ({
            let (prepared, rows) = r;
            let leader = a.cluster.nodes[a.cluster.leader_at()];
            &&& prepared.cluster == a.cluster && prepared.config == a.config
                && prepared.read_lease == a.read_lease
            &&& ordered::ascending(rows)
            &&& forall|k: Seq<char>, v: Seq<char>| #[trigger]
                rows.contains((k, v)) <==> state_machine::lookup(leader.state, k) == Some(v)
                    && compares(cell(k, v, predicate.column), predicate.op, predicate.value)
            &&& a.mutate(a.cluster.leader_id, predicate, value, wait) == prepared.write_rows(
                a.cluster.leader_id,
                rows,
                0,
                value,
                wait,
                None,
                0,
            )
        }),
{
    let leader = a.cluster.nodes[a.cluster.leader_at()];
    let commit = leader.commit_index;
    api_versions::cluster_is_valid(a);
    raft_laws::leader_has_place(a.cluster);
    api_versions::prepared_versions_show(a, a.cluster.leader_id);
    let b = a.in_step_with_the_leader();
    let all = b.mvcc.rows(commit);
    let rows = a.affected(predicate);
    api_versions::keys_can_be_sorted(b);
    mvcc::rows_of_a_catalog(b.mvcc, commit, Seq::empty(), Seq::empty());
    answers_show_the_matching_rows(all, Seq::empty(), Some(predicate));
    assert forall|k: Seq<char>, v: Seq<char>| #[trigger] rows.contains((k, v))
        <==> state_machine::lookup(leader.state, k) == Some(v) && compares(
        cell(k, v, predicate.column),
        predicate.op,
        predicate.value,
    ) by {
        mvcc::rows_of_a_catalog(b.mvcc, commit, k, v);
        assert(b.mvcc.read(k, commit) == state_machine::lookup(leader.state, k));
    }
    (b, rows)
}

} // verus!
