//! Statements, plans and errors of the SQL subset over the one key/value
//! table.
use vstd::prelude::*;

use crate::text::join2;

verus! {

/// The tables that there are.
#[derive(Debug, Clone, Copy, PartialEq, Eq, Structural)]
pub enum TableName {
    Kv,
}

/// The columns of the table.
#[derive(Debug, Clone, Copy, PartialEq, Eq, Structural)]
pub enum ColumnName {
    Key,
    Value,
}

/// The name of a column.
pub open spec fn column_text(column: ColumnName) -> Seq<char> {
    match column {
        ColumnName::Key => "key"@,
        ColumnName::Value => "value"@,
    }
}

impl ColumnName {
    pub fn as_str(self) -> (r: &'static str)
        ensures
            r@ == column_text(self),
    {
        match self {
            ColumnName::Key => "key",
            ColumnName::Value => "value",
        }
    }
}

/// How a predicate compares.
#[derive(Debug, Clone, Copy, PartialEq, Eq, Structural)]
pub enum ComparisonOp {
    Eq,
    NotEq,
}

/// A comparison of a column with a literal.
#[derive(Debug, PartialEq, Eq)]
pub struct Predicate {
    pub column: ColumnName,
    pub op: ComparisonOp,
    pub value: String,
}

/// A [`Predicate`] over the characters of its literal.
pub struct PredicateV {
    pub column: ColumnName,
    pub op: ComparisonOp,
    pub value: Seq<char>,
}

impl View for Predicate {
    type V = PredicateV;

    open spec fn view(&self) -> PredicateV {
        PredicateV { column: self.column, op: self.op, value: self.value@ }
    }
}

impl Clone for Predicate {
    fn clone(&self) -> (r: Self)
        ensures
            r == *self,
    {
        Predicate { column: self.column, op: self.op, value: self.value.clone() }
    }
}

/// The view of a predicate that may be absent.
pub open spec fn predicate_view(predicate: Option<Predicate>) -> Option<PredicateV> {
    match predicate {
        Some(p) => Some(p@),
        None => None,
    }
}

/// A copy of a list of columns.
pub fn copy_columns(columns: &Vec<ColumnName>) -> (r: Vec<ColumnName>)
    ensures
        r@ == columns@,
{
    let mut r: Vec<ColumnName> = Vec::new();
    let mut i: usize = 0;
    while i < columns.len()
        invariant
            i <= columns@.len(),
            r@ == columns@.take(i as int),
        decreases columns@.len() - i,
    {
        r.push(columns[i]);
        assert(columns@.take(i + 1) =~= columns@.take(i as int).push(columns@[i as int]));
        i += 1;
    }
    assert(columns@.take(i as int) =~= columns@);
    r
}

/// A copy of a predicate that may be absent.
pub fn copy_predicate(predicate: &Option<Predicate>) -> (r: Option<Predicate>)
    ensures
        r == *predicate,
{
    match predicate {
        Some(p) => Some(p.clone()),
        None => None,
    }
}

/// A parsed statement.
#[allow(inconsistent_fields)]
#[derive(Debug, PartialEq, Eq)]
pub enum SqlStatement {
    Insert { table: TableName, key: String, value: String },
    Delete { table: TableName, predicate: Predicate },
    Update { table: TableName, value: String, predicate: Predicate },
    Select { table: TableName, projections: Vec<ColumnName>, predicate: Option<Predicate> },
}

/// A [`SqlStatement`] over the views of its parts.
#[allow(inconsistent_fields)]
pub enum SqlStatementV {
    Insert { table: TableName, key: Seq<char>, value: Seq<char> },
    Delete { table: TableName, predicate: PredicateV },
    Update { table: TableName, value: Seq<char>, predicate: PredicateV },
    Select { table: TableName, projections: Seq<ColumnName>, predicate: Option<PredicateV> },
}

impl View for SqlStatement {
    type V = SqlStatementV;

    open spec fn view(&self) -> SqlStatementV {
        match self {
            SqlStatement::Insert { table, key, value } => SqlStatementV::Insert {
                table: *table,
                key: key@,
                value: value@,
            },
            SqlStatement::Delete { table, predicate } => SqlStatementV::Delete {
                table: *table,
                predicate: predicate@,
            },
            SqlStatement::Update { table, value, predicate } => SqlStatementV::Update {
                table: *table,
                value: value@,
                predicate: predicate@,
            },
            SqlStatement::Select { table, projections, predicate } => SqlStatementV::Select {
                table: *table,
                projections: projections@,
                predicate: predicate_view(*predicate),
            },
        }
    }
}

impl Clone for SqlStatement {
    fn clone(&self) -> (r: Self)
        ensures
            r@ == self@,
    {
        match self {
            SqlStatement::Insert { table, key, value } => SqlStatement::Insert {
                table: *table,
                key: key.clone(),
                value: value.clone(),
            },
            SqlStatement::Delete { table, predicate } => SqlStatement::Delete {
                table: *table,
                predicate: predicate.clone(),
            },
            SqlStatement::Update { table, value, predicate } => SqlStatement::Update {
                table: *table,
                value: value.clone(),
                predicate: predicate.clone(),
            },
            SqlStatement::Select { table, projections, predicate } => SqlStatement::Select {
                table: *table,
                projections: copy_columns(projections),
                predicate: copy_predicate(predicate),
            },
        }
    }
}

/// A tree of relational operators.
#[derive(Debug, PartialEq, Eq)]
pub enum LogicalPlan {
    Scan { table: TableName },
    Filter { input: Box<LogicalPlan>, predicate: Predicate },
    Projection { input: Box<LogicalPlan>, columns: Vec<ColumnName> },
    InsertValues { table: TableName, key: String, value: String },
    DeleteRows { table: TableName, predicate: Predicate },
    UpdateRows { table: TableName, value: String, predicate: Predicate },
}

/// A [`LogicalPlan`] over the views of its parts.
pub enum LogicalPlanV {
    Scan { table: TableName },
    Filter { input: Box<LogicalPlanV>, predicate: PredicateV },
    Projection { input: Box<LogicalPlanV>, columns: Seq<ColumnName> },
    InsertValues { table: TableName, key: Seq<char>, value: Seq<char> },
    DeleteRows { table: TableName, predicate: PredicateV },
    UpdateRows { table: TableName, value: Seq<char>, predicate: PredicateV },
}

/// The view of a plan.
pub open spec fn plan_view(plan: LogicalPlan) -> LogicalPlanV
    decreases plan,
{
    match plan {
        LogicalPlan::Scan { table } => LogicalPlanV::Scan { table },
        LogicalPlan::Filter { input, predicate } => LogicalPlanV::Filter {
            input: Box::new(plan_view(*input)),
            predicate: predicate@,
        },
        LogicalPlan::Projection { input, columns } => LogicalPlanV::Projection {
            input: Box::new(plan_view(*input)),
            columns: columns@,
        },
        LogicalPlan::InsertValues { table, key, value } => LogicalPlanV::InsertValues {
            table,
            key: key@,
            value: value@,
        },
        LogicalPlan::DeleteRows { table, predicate } => LogicalPlanV::DeleteRows {
            table,
            predicate: predicate@,
        },
        LogicalPlan::UpdateRows { table, value, predicate } => LogicalPlanV::UpdateRows {
            table,
            value: value@,
            predicate: predicate@,
        },
    }
}

impl View for LogicalPlan {
    type V = LogicalPlanV;

    open spec fn view(&self) -> LogicalPlanV {
        plan_view(*self)
    }
}

impl Clone for LogicalPlan {
    fn clone(&self) -> (r: Self)
        ensures
            r@ == self@,
        decreases self,
    {
        match self {
            LogicalPlan::Scan { table } => LogicalPlan::Scan { table: *table },
            LogicalPlan::Filter { input, predicate } => LogicalPlan::Filter {
                input: Box::new((&**input).clone()),
                predicate: predicate.clone(),
            },
            LogicalPlan::Projection { input, columns } => LogicalPlan::Projection {
                input: Box::new((&**input).clone()),
                columns: copy_columns(columns),
            },
            LogicalPlan::InsertValues { table, key, value } => LogicalPlan::InsertValues {
                table: *table,
                key: key.clone(),
                value: value.clone(),
            },
            LogicalPlan::DeleteRows { table, predicate } => LogicalPlan::DeleteRows {
                table: *table,
                predicate: predicate.clone(),
            },
            LogicalPlan::UpdateRows { table, value, predicate } => LogicalPlan::UpdateRows {
                table: *table,
                value: value.clone(),
                predicate: predicate.clone(),
            },
        }
    }
}

/// What a key/value store does for a statement.
#[allow(inconsistent_fields)]
#[derive(Debug, PartialEq, Eq)]
pub enum KvExecutionPlan {
    Select { columns: Vec<ColumnName>, predicate: Option<Predicate> },
    Insert { key: String, value: String },
    Delete { predicate: Predicate },
    Update { value: String, predicate: Predicate },
}

/// A [`KvExecutionPlan`] over the views of its parts.
#[allow(inconsistent_fields)]
pub enum KvExecutionPlanV {
    Select { columns: Seq<ColumnName>, predicate: Option<PredicateV> },
    Insert { key: Seq<char>, value: Seq<char> },
    Delete { predicate: PredicateV },
    Update { value: Seq<char>, predicate: PredicateV },
}

impl View for KvExecutionPlan {
    type V = KvExecutionPlanV;

    open spec fn view(&self) -> KvExecutionPlanV {
        match self {
            KvExecutionPlan::Select { columns, predicate } => KvExecutionPlanV::Select {
                columns: columns@,
                predicate: predicate_view(*predicate),
            },
            KvExecutionPlan::Insert { key, value } => KvExecutionPlanV::Insert {
                key: key@,
                value: value@,
            },
            KvExecutionPlan::Delete { predicate } => KvExecutionPlanV::Delete {
                predicate: predicate@,
            },
            KvExecutionPlan::Update { value, predicate } => KvExecutionPlanV::Update {
                value: value@,
                predicate: predicate@,
            },
        }
    }
}

impl Clone for KvExecutionPlan {
    fn clone(&self) -> (r: Self)
        ensures
            r@ == self@,
    {
        match self {
            KvExecutionPlan::Select { columns, predicate } => KvExecutionPlan::Select {
                columns: copy_columns(columns),
                predicate: copy_predicate(predicate),
            },
            KvExecutionPlan::Insert { key, value } => KvExecutionPlan::Insert {
                key: key.clone(),
                value: value.clone(),
            },
            KvExecutionPlan::Delete { predicate } => KvExecutionPlan::Delete {
                predicate: predicate.clone(),
            },
            KvExecutionPlan::Update { value, predicate } => KvExecutionPlan::Update {
                value: value.clone(),
                predicate: predicate.clone(),
            },
        }
    }
}

/// Why a text is no statement, or a plan has no counterpart.
#[derive(Debug, PartialEq, Eq)]
pub struct SqlError {
    pub message: String,
}

impl Clone for SqlError {
    fn clone(&self) -> (r: Self)
        ensures
            r == *self,
    {
        SqlError { message: self.message.clone() }
    }
}

pub type SqlResult<T> = Result<T, SqlError>;

/// The text that an error with this message displays.
pub open spec fn sql_error_display(message: Seq<char>) -> Seq<char> {
    "sql error: "@ + message
}

impl SqlError {
    pub fn new(message: &str) -> (r: Self)
        ensures
            r.message@ == message@,
    {
        SqlError { message: message.to_owned() }
    }

    /// The error as a message for people.
    pub fn to_string(&self) -> (r: String)
        ensures
            r@ == sql_error_display(self.message@),
    {
        join2("sql error: ", self.message.as_str())
    }
}

} // verus!
