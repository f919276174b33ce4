//! Planning statements, lowering plans to the key/value store, and evaluating
//! rows.
use vstd::prelude::*;

use crate::sql_ast;
use crate::sql_ast::{
    copy_columns, ColumnName, ComparisonOp, KvExecutionPlan, KvExecutionPlanV, LogicalPlan,
    LogicalPlanV, Predicate, PredicateV, SqlError, SqlResult, SqlStatement, SqlStatementV,
    TableName,
};
use crate::sql_parser;
use crate::sql_parser::{both_columns, parse_statement};
use crate::text;
use crate::text::text_equal;

verus! {

/// The plan of a statement: a write is one operator, a query a projection over
/// an optional filter over a scan.
pub open spec fn planned(statement: SqlStatementV) -> LogicalPlanV {
    match statement {
        SqlStatementV::Insert { table, key, value } => LogicalPlanV::InsertValues {
            table,
            key,
            value,
        },
        SqlStatementV::Delete { table, predicate } => LogicalPlanV::DeleteRows {
            table,
            predicate,
        },
        SqlStatementV::Update { table, value, predicate } => LogicalPlanV::UpdateRows {
            table,
            value,
            predicate,
        },
        SqlStatementV::Select { table, projections, predicate } => {
            let scan = LogicalPlanV::Scan { table };
            let input = match predicate {
                Some(p) => LogicalPlanV::Filter { input: Box::new(scan), predicate: p },
                None => scan,
            };
            LogicalPlanV::Projection { input: Box::new(input), columns: projections }
        },
    }
}

/// The columns and the predicate of a query, beside those found above it. There
/// may be one projection and one filter.
pub open spec fn query_parts(
    plan: LogicalPlanV,
    columns: Option<Seq<ColumnName>>,
    predicate: Option<PredicateV>,
) -> Result<(Option<Seq<ColumnName>>, Option<PredicateV>), Seq<char>>
    decreases plan,
{
    match plan {
        LogicalPlanV::Projection { input, columns: c } => if columns is Some {
            Err("multiple projection nodes are not supported"@)
        } else {
            query_parts(*input, Some(c), predicate)
        },
        LogicalPlanV::Filter { input, predicate: p } => if predicate is Some {
            Err("multiple filter nodes are not supported"@)
        } else {
            query_parts(*input, columns, Some(p))
        },
        LogicalPlanV::Scan { .. } => Ok((columns, predicate)),
        _ => Err("logical plan is not a lowerable SELECT query for kv table"@),
    }
}

/// What the key/value store does for a plan.
pub open spec fn lowered(plan: LogicalPlanV) -> Result<KvExecutionPlanV, Seq<char>> {
    match plan {
        LogicalPlanV::InsertValues { table, key, value } => Ok(
            KvExecutionPlanV::Insert { key, value },
        ),
        LogicalPlanV::DeleteRows { table, predicate } => Ok(KvExecutionPlanV::Delete { predicate }),
        LogicalPlanV::UpdateRows { table, value, predicate } => Ok(
            KvExecutionPlanV::Update { value, predicate },
        ),
        _ => match query_parts(plan, None, None) {
            Err(message) => Err(message),
            Ok((columns, predicate)) => Ok(
                KvExecutionPlanV::Select {
                    columns: match columns {
                        Some(c) => c,
                        None => seq![ColumnName::Key, ColumnName::Value],
                    },
                    predicate,
                },
            ),
        },
    }
}

/// What the key/value store does for a statement.
pub open spec fn execution_of(statement: SqlStatementV) -> KvExecutionPlanV {
    match statement {
        SqlStatementV::Insert { table, key, value } => KvExecutionPlanV::Insert { key, value },
        SqlStatementV::Delete { table, predicate } => KvExecutionPlanV::Delete { predicate },
        SqlStatementV::Update { table, value, predicate } => KvExecutionPlanV::Update {
            value,
            predicate,
        },
        SqlStatementV::Select { table, projections, predicate } => KvExecutionPlanV::Select {
            columns: projections,
            predicate,
        },
    }
}

/// Every planned statement can be lowered, to what the statement says.
pub proof fn planned_statements_lower(statement: SqlStatementV)
    ensures
        lowered(planned(statement)) == Ok::<KvExecutionPlanV, Seq<char>>(execution_of(statement)),
{
    reveal_with_fuel(query_parts, 4);
}

/// Plans a statement.
pub fn plan_statement(statement: SqlStatement) -> (r: LogicalPlan)
    ensures
        r@ == planned(statement@),
{
    reveal_with_fuel(sql_ast::plan_view, 4);
    match statement {
        SqlStatement::Insert { table, key, value } => LogicalPlan::InsertValues {
            table,
            key,
            value,
        },
        SqlStatement::Delete { table, predicate } => LogicalPlan::DeleteRows { table, predicate },
        SqlStatement::Update { table, value, predicate } => LogicalPlan::UpdateRows {
            table,
            value,
            predicate,
        },
        SqlStatement::Select { table, projections, predicate } => {
            let scan = LogicalPlan::Scan { table };
            let input = match predicate {
                Some(predicate) => LogicalPlan::Filter { input: Box::new(scan), predicate },
                None => scan,
            };
            LogicalPlan::Projection { input: Box::new(input), columns: projections }
        },
    }
}

/// The plan of a text.
pub open spec fn planned_text(sql: Seq<char>) -> Result<LogicalPlanV, Seq<char>> {
    match sql_parser::parsed(sql) {
        Ok(statement) => Ok(planned(statement)),
        Err(message) => Err(message),
    }
}

/// Parses and plans a statement.
pub fn plan_sql(sql: &str) -> (r: SqlResult<LogicalPlan>)
    ensures
        match planned_text(sql@) {
            Ok(plan) => r matches Ok(found) && found@ == plan,
            Err(message) => r matches Err(e) && e.message@ == message,
        },
{
    match parse_statement(sql) {
        Ok(statement) => Ok(plan_statement(statement)),
        Err(error) => Err(error),
    }
}

/// Lowers a plan to the key/value store.
pub fn lower_plan_for_kv(plan: &LogicalPlan) -> (r: SqlResult<KvExecutionPlan>)
    ensures
        match lowered(plan@) {
            Ok(execution) => r matches Ok(found) && found@ == execution,
            Err(message) => r matches Err(e) && e.message@ == message,
        },
{
    match plan {
        LogicalPlan::InsertValues { key, value, .. } => Ok(
            KvExecutionPlan::Insert { key: key.clone(), value: value.clone() },
        ),
        LogicalPlan::DeleteRows { predicate, .. } => Ok(
            KvExecutionPlan::Delete { predicate: predicate.clone() },
        ),
        LogicalPlan::UpdateRows { value, predicate, .. } => Ok(
            KvExecutionPlan::Update { value: value.clone(), predicate: predicate.clone() },
        ),
        _ => match lower_select_plan(plan) {
            Ok((columns, predicate)) => Ok(KvExecutionPlan::Select { columns, predicate }),
            Err(error) => Err(error),
        },
    }
}

/// The view of columns that may be absent.
pub open spec fn columns_view(columns: Option<Vec<ColumnName>>) -> Option<Seq<ColumnName>> {
    match columns {
        Some(c) => Some(c@),
        None => None,
    }
}

fn lower_select_plan(plan: &LogicalPlan) -> (r: SqlResult<(Vec<ColumnName>, Option<Predicate>)>)
    ensures
        match query_parts(plan@, None, None) {
            Ok((columns, predicate)) => r matches Ok(found) && found.0@ == (match columns {
                Some(c) => c,
                None => seq![ColumnName::Key, ColumnName::Value],
            }) && sql_ast::predicate_view(found.1) == predicate,
            Err(message) => r matches Err(e) && e.message@ == message,
        },
{
    let mut columns: Option<Vec<ColumnName>> = None;
    let mut predicate: Option<Predicate> = None;
    match collect_query_parts(plan, &mut columns, &mut predicate) {
        Ok(()) => {},
        Err(error) => {
            return Err(error);
        },
    }
    let columns = match columns {
        Some(c) => c,
        None => both_columns(),
    };
    Ok((columns, predicate))
}

fn collect_query_parts(
    plan: &LogicalPlan,
    columns: &mut Option<Vec<ColumnName>>,
    predicate: &mut Option<Predicate>,
) -> (r: SqlResult<()>)
    ensures
        match query_parts(
            plan@,
            columns_view(*old(columns)),
            sql_ast::predicate_view(*old(predicate)),
        ) {
            Ok((c, p)) => r is Ok && columns_view(*final(columns)) == c && sql_ast::predicate_view(
                *final(predicate),
            ) == p,
            Err(message) => r matches Err(e) && e.message@ == message,
        },
    decreases plan,
{
    match plan {
        LogicalPlan::Projection { input, columns: c } => {
            if columns.is_some() {
                return Err(SqlError::new("multiple projection nodes are not supported"));
            }
            *columns = Some(copy_columns(c));
            collect_query_parts(&**input, columns, predicate)
        },
        LogicalPlan::Filter { input, predicate: p } => {
            if predicate.is_some() {
                return Err(SqlError::new("multiple filter nodes are not supported"));
            }
            *predicate = Some(p.clone());
            collect_query_parts(&**input, columns, predicate)
        },
        LogicalPlan::Scan { .. } => Ok(()),
        _ => Err(SqlError::new("logical plan is not a lowerable SELECT query for kv table")),
    }
}

/// Whether a row meets a predicate.
pub open spec fn meets(key: Seq<char>, value: Seq<char>, predicate: PredicateV) -> bool {
    let side = match predicate.column {
        ColumnName::Key => key,
        ColumnName::Value => value,
    };
    match predicate.op {
        ComparisonOp::Eq => side == predicate.value,
        ComparisonOp::NotEq => side != predicate.value,
    }
}

/// Whether a row meets a predicate.
pub fn evaluate_predicate(key: &str, value: &str, predicate: &Predicate) -> (r: bool)
    ensures
        r == meets(key@, value@, predicate@),
{
    let side: &str = match predicate.column {
        ColumnName::Key => key,
        ColumnName::Value => value,
    };
    let same = text_equal(side, predicate.value.as_str());
    match predicate.op {
        ComparisonOp::Eq => same,
        ComparisonOp::NotEq => !same,
    }
}

/// The columns of a row.
pub open spec fn projected(key: Seq<char>, value: Seq<char>, columns: Seq<ColumnName>) -> Seq<
    Seq<char>,
> {
    Seq::new(
        columns.len(),
        |i: int|
            match columns[i] {
                ColumnName::Key => key,
                ColumnName::Value => value,
            },
    )
}

/// Picks columns of a row.
pub fn project_row(key: &str, value: &str, columns: &[ColumnName]) -> (r: Vec<String>)
    ensures
        text::texts(r@) == projected(key@, value@, columns@),
{
    let mut row: Vec<String> = Vec::new();
    let mut i: usize = 0;
    while i < columns.len()
        invariant
            i <= columns@.len(),
            row@.len() == i,
            forall|k: int|
                0 <= k < i ==> (#[trigger] row@[k])@ == projected(key@, value@, columns@)[k],
        decreases columns@.len() - i,
    {
        match columns[i] {
            ColumnName::Key => row.push(key.to_owned()),
            ColumnName::Value => row.push(value.to_owned()),
        }
        i += 1;
    }
    assert(text::texts(row@) =~= projected(key@, value@, columns@));
    row
}

/// The names of columns.
pub open spec fn headers(columns: Seq<ColumnName>) -> Seq<Seq<char>> {
    Seq::new(columns.len(), |i: int| sql_ast::column_text(columns[i]))
}

/// Names columns.
pub fn column_headers(columns: &[ColumnName]) -> (r: Vec<String>)
    ensures
        text::texts(r@) == headers(columns@),
{
    let mut names: Vec<String> = Vec::new();
    let mut i: usize = 0;
    while i < columns.len()
        invariant
            i <= columns@.len(),
            names@.len() == i,
            forall|k: int| 0 <= k < i ==> (#[trigger] names@[k])@ == headers(columns@)[k],
        decreases columns@.len() - i,
    {
        names.push(columns[i].as_str().to_owned());
        i += 1;
    }
    assert(text::texts(names@) =~= headers(columns@));
    names
}

/// A row meets a predicate exactly when it does not meet its negation.
pub proof fn comparisons_are_opposite(
    key: Seq<char>,
    value: Seq<char>,
    column: ColumnName,
    literal: Seq<char>,
)
    ensures
        meets(key, value, PredicateV { column, op: ComparisonOp::Eq, value: literal }) != meets(
            key,
            value,
            PredicateV { column, op: ComparisonOp::NotEq, value: literal },
        ),
{
}

/// A row meets a condition on a column exactly where the text in that column,
/// and no other of the row, is the literal or, for `!=`, is another one.
pub proof fn conditions_look_at_their_column(
    key: Seq<char>,
    value: Seq<char>,
    other: Seq<char>,
    literal: Seq<char>,
)
    ensures
        ({
            let on = |column: ColumnName, op: ComparisonOp|
                PredicateV { column, op, value: literal };
            &&& meets(key, value, on(ColumnName::Key, ComparisonOp::Eq)) <==> key == literal
            &&& meets(key, value, on(ColumnName::Key, ComparisonOp::NotEq)) <==> key != literal
            &&& meets(key, value, on(ColumnName::Value, ComparisonOp::Eq)) <==> value == literal
            &&& meets(key, value, on(ColumnName::Value, ComparisonOp::NotEq)) <==> value
                != literal
        }),
        forall|op: ComparisonOp|
            #![auto]
            meets(key, value, PredicateV { column: ColumnName::Key, op, value: literal }) == meets(
                key,
                other,
                PredicateV { column: ColumnName::Key, op, value: literal },
            ),
        forall|op: ComparisonOp|
            #![auto]
            meets(key, value, PredicateV { column: ColumnName::Value, op, value: literal })
                == meets(
                other,
                value,
                PredicateV { column: ColumnName::Value, op, value: literal },
            ),
{
}

/// A projected row has one cell for each asked column, in the asked order: the
/// key where the key is asked for, and the value where the value is, whatever
/// else is asked for and however often; and the headers name the same columns.
pub proof fn cells_are_what_is_asked_for(
    key: Seq<char>,
    value: Seq<char>,
    columns: Seq<ColumnName>,
    i: int,
)
    ensures
        projected(key, value, columns).len() == columns.len(),
        headers(columns).len() == columns.len(),
        0 <= i < columns.len() && columns[i] == ColumnName::Key ==> projected(
            key,
            value,
            columns,
        )[i] == key && headers(columns)[i] == "key"@,
        0 <= i < columns.len() && columns[i] == ColumnName::Value ==> projected(
            key,
            value,
            columns,
        )[i] == value && headers(columns)[i] == "value"@,
{
}

/// A statement is planned and carried out as it stands: an INSERT puts its key
/// and value, an UPDATE and a DELETE keep their condition and the new value, and
/// a SELECT its columns and its condition.
pub proof fn statements_are_carried_out_as_they_stand(
    table: TableName,
    key: Seq<char>,
    value: Seq<char>,
    predicate: PredicateV,
    columns: Seq<ColumnName>,
)
    ensures
        lowered(planned(SqlStatementV::Insert { table, key, value })) == Ok::<
            KvExecutionPlanV,
            Seq<char>,
        >(KvExecutionPlanV::Insert { key, value }),
        lowered(planned(SqlStatementV::Update { table, value, predicate })) == Ok::<
            KvExecutionPlanV,
            Seq<char>,
        >(KvExecutionPlanV::Update { value, predicate }),
        lowered(planned(SqlStatementV::Delete { table, predicate })) == Ok::<
            KvExecutionPlanV,
            Seq<char>,
        >(KvExecutionPlanV::Delete { predicate }),
        lowered(
            planned(
                SqlStatementV::Select { table, projections: columns, predicate: Some(predicate) },
            ),
        ) == Ok::<KvExecutionPlanV, Seq<char>>(
            KvExecutionPlanV::Select { columns, predicate: Some(predicate) },
        ),
        lowered(planned(SqlStatementV::Select { table, projections: columns, predicate: None }))
            == Ok::<KvExecutionPlanV, Seq<char>>(
            KvExecutionPlanV::Select { columns, predicate: None },
        ),
{
    reveal_with_fuel(query_parts, 4);
}

/// The plan of a statement: a write is one operator with what the statement
/// says, a SELECT a projection over a filter, where there is a condition, over a
/// scan.
pub proof fn plans_hold_what_statements_say(
    table: TableName,
    key: Seq<char>,
    value: Seq<char>,
    predicate: PredicateV,
    columns: Seq<ColumnName>,
)
    ensures
        planned(SqlStatementV::Insert { table, key, value }) == (LogicalPlanV::InsertValues {
            table,
            key,
            value,
        }),
        planned(SqlStatementV::Update { table, value, predicate }) == (LogicalPlanV::UpdateRows {
            table,
            value,
            predicate,
        }),
        planned(SqlStatementV::Delete { table, predicate }) == (LogicalPlanV::DeleteRows {
            table,
            predicate,
        }),
        planned(SqlStatementV::Select { table, projections: columns, predicate: None })
            == over_columns(LogicalPlanV::Scan { table }, columns),
        planned(SqlStatementV::Select { table, projections: columns, predicate: Some(predicate) })
            == over_columns(filtered(LogicalPlanV::Scan { table }, predicate), columns),
{
}

/// A projection of what a plan gives.
pub open spec fn over_columns(input: LogicalPlanV, columns: Seq<ColumnName>) -> LogicalPlanV {
    LogicalPlanV::Projection { input: Box::new(input), columns }
}

/// The rows of a plan that meet a predicate.
pub open spec fn filtered(input: LogicalPlanV, predicate: PredicateV) -> LogicalPlanV {
    LogicalPlanV::Filter { input: Box::new(input), predicate }
}

/// A projection and a filter over a scan lower to one query in whatever order
/// they stand, without a projection to both columns; a second projection or a
/// second filter is refused, and so is a query over a write.
pub proof fn queries_lower_once(
    table: TableName,
    columns: Seq<ColumnName>,
    more: Seq<ColumnName>,
    predicate: PredicateV,
    other: PredicateV,
    key: Seq<char>,
    value: Seq<char>,
)
    ensures
        ({
            let scan = LogicalPlanV::Scan { table };
            let put = LogicalPlanV::InsertValues { table, key, value };
            let both = seq![ColumnName::Key, ColumnName::Value];
            let query = |columns: Seq<ColumnName>, predicate: Option<PredicateV>|
                Ok::<KvExecutionPlanV, Seq<char>>(KvExecutionPlanV::Select { columns, predicate });
            &&& lowered(scan) == query(both, None)
            &&& lowered(filtered(scan, predicate)) == query(both, Some(predicate))
            &&& lowered(over_columns(scan, columns)) == query(columns, None)
            &&& lowered(over_columns(filtered(scan, predicate), columns)) == query(
                columns,
                Some(predicate),
            )
            &&& lowered(filtered(over_columns(scan, columns), predicate)) == query(
                columns,
                Some(predicate),
            )
            &&& lowered(over_columns(over_columns(scan, columns), more)) == Err::<
                KvExecutionPlanV,
                Seq<char>,
            >("multiple projection nodes are not supported"@)
            &&& lowered(filtered(filtered(scan, predicate), other)) == Err::<
                KvExecutionPlanV,
                Seq<char>,
            >("multiple filter nodes are not supported"@)
            &&& lowered(over_columns(put, columns)) == Err::<KvExecutionPlanV, Seq<char>>(
                "logical plan is not a lowerable SELECT query for kv table"@,
            )
        }),
{
    reveal_with_fuel(query_parts, 4);
}

} // verus!
