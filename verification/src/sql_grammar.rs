//! Which tokens say which statement, and which texts hold which tokens.
use vstd::prelude::*;

use crate::sql_ast::{ColumnName, ComparisonOp, PredicateV, SqlStatementV, TableName};
use crate::sql_lexer;
use crate::sql_lexer::TokenV;
use crate::sql_parser;
use crate::sql_parser::{at, statement_of};
use crate::text;

verus! {

/// The same token, but for the case of the letters of a word.
pub open spec fn same_token(t: TokenV, u: TokenV) -> bool {
    ||| t == u
    ||| t matches TokenV::Word(w) && u matches TokenV::Word(v) && text::same_ignoring_case(w, v)
}

/// The same tokens, but for the case of the letters of words.
pub open spec fn alike(ts: Seq<TokenV>, us: Seq<TokenV>) -> bool {
    ts.len() == us.len() && forall|i: int|
        0 <= i < ts.len() ==> same_token(#[trigger] ts[i], us[i])
}

/// The word that names a column.
pub open spec fn column_word(column: ColumnName) -> TokenV {
    match column {
        ColumnName::Key => TokenV::Word("key"@),
        ColumnName::Value => TokenV::Word("value"@),
    }
}

/// The mark of a comparison.
pub open spec fn comparison_mark(op: ComparisonOp) -> TokenV {
    match op {
        ComparisonOp::Eq => TokenV::Eq,
        ComparisonOp::NotEq => TokenV::NotEq,
    }
}

/// WHERE, a column, a comparison and a literal.
pub open spec fn condition_tokens(predicate: PredicateV) -> Seq<TokenV> {
    seq![
        TokenV::Word("WHERE"@),
        column_word(predicate.column),
        comparison_mark(predicate.op),
        TokenV::StringLiteral(predicate.value),
    ]
}

/// DELETE FROM kv WHERE ...
pub open spec fn delete_tokens(predicate: PredicateV) -> Seq<TokenV> {
    seq![TokenV::Word("DELETE"@), TokenV::Word("FROM"@), TokenV::Word("kv"@)] + condition_tokens(
        predicate,
    )
}

/// UPDATE kv SET value = ... WHERE ...
pub open spec fn update_tokens(value: Seq<char>, predicate: PredicateV) -> Seq<TokenV> {
    seq![
        TokenV::Word("UPDATE"@),
        TokenV::Word("kv"@),
        TokenV::Word("SET"@),
        TokenV::Word("value"@),
        TokenV::Eq,
        TokenV::StringLiteral(value),
    ] + condition_tokens(predicate)
}

/// Columns with commas between them.
pub open spec fn listed(columns: Seq<ColumnName>) -> Seq<TokenV> {
    Seq::new(
        (2 * columns.len() - 1) as nat,
        |j: int|
            if j % 2 == 0 {
                column_word(columns[j / 2])
            } else {
                TokenV::Comma
            },
    )
}

/// SELECT ... FROM kv, and a condition where there is one.
pub open spec fn select_tokens(asked: Seq<TokenV>, predicate: Option<PredicateV>) -> Seq<TokenV> {
    seq![TokenV::Word("SELECT"@)] + asked + seq![TokenV::Word("FROM"@), TokenV::Word("kv"@)] + (
    match predicate {
        Some(p) => condition_tokens(p),
        None => Seq::empty(),
    })
}

/// VALUES (first, second)
pub open spec fn values_tokens(first: Seq<char>, second: Seq<char>) -> Seq<TokenV> {
    seq![
        TokenV::Word("VALUES"@),
        TokenV::LParen,
        TokenV::StringLiteral(first),
        TokenV::Comma,
        TokenV::StringLiteral(second),
        TokenV::RParen,
    ]
}

/// INSERT INTO kv, a list of columns where there is one, and the values.
pub open spec fn insert_into(names: Option<(ColumnName, ColumnName)>, first: Seq<char>, second: Seq<
    char,
>) -> Seq<TokenV> {
    seq![TokenV::Word("INSERT"@), TokenV::Word("INTO"@), TokenV::Word("kv"@)] + (match names {
        Some((one, other)) => seq![
            TokenV::LParen,
            column_word(one),
            TokenV::Comma,
            column_word(other),
            TokenV::RParen,
        ],
        None => Seq::empty(),
    }) + values_tokens(first, second)
}

/// The tokens say the statement. An INSERT may name the columns in either order,
/// and without names the key comes first; a SELECT may ask for both columns with
/// a star.
pub open spec fn say(ts: Seq<TokenV>, statement: SqlStatementV) -> bool {
    match statement {
        SqlStatementV::Insert { table, key, value } => {
            ||| ts == insert_into(None, key, value)
            ||| ts == insert_into(Some((ColumnName::Key, ColumnName::Value)), key, value)
            ||| ts == insert_into(Some((ColumnName::Value, ColumnName::Key)), value, key)
        },
        SqlStatementV::Delete { table, predicate } => ts == delete_tokens(predicate),
        SqlStatementV::Update { table, value, predicate } => ts == update_tokens(value, predicate),
        SqlStatementV::Select { table, projections, predicate } => {
            ||| projections.len() > 0 && ts == select_tokens(listed(projections), predicate)
            ||| projections == seq![ColumnName::Key, ColumnName::Value] && ts == select_tokens(
                seq![TokenV::Star],
                predicate,
            )
        },
    }
}

/// Tokens with or without a semicolon behind them.
pub open spec fn closed_by(ts: Seq<TokenV>, semicolon: bool) -> Seq<TokenV> {
    if semicolon {
        ts.push(TokenV::Semicolon)
    } else {
        ts
    }
}

/// Words that are the same but for case are so with every third.
pub proof fn cases_agree(a: Seq<char>, b: Seq<char>, c: Seq<char>)
    requires
        text::same_ignoring_case(a, b),
    ensures
        text::same_ignoring_case(a, c) == text::same_ignoring_case(b, c),
        text::same_ignoring_case(c, a) == text::same_ignoring_case(c, b),
        text::same_ignoring_case(b, a),
        text::same_ignoring_case(a, a),
{
    if text::same_ignoring_case(a, c) {
        assert forall|i: int| 0 <= i < b.len() implies text::lower(b[i]) == text::lower(c[i]) by {
            assert(text::lower(a[i]) == text::lower(b[i]));
            assert(text::lower(a[i]) == text::lower(c[i]));
        }
    }
    if text::same_ignoring_case(b, c) {
        assert forall|i: int| 0 <= i < a.len() implies text::lower(a[i]) == text::lower(c[i]) by {
            assert(text::lower(a[i]) == text::lower(b[i]));
            assert(text::lower(b[i]) == text::lower(c[i]));
        }
    }
}

/// The words that statements are told apart by.
pub proof fn words_differ()
    ensures
        !text::same_ignoring_case("value"@, "key"@),
        text::same_ignoring_case("INSERT"@, "insert"@),
        text::same_ignoring_case("DELETE"@, "delete"@),
        text::same_ignoring_case("UPDATE"@, "update"@),
        text::same_ignoring_case("SELECT"@, "select"@),
        !text::same_ignoring_case("delete"@, "insert"@),
        !text::same_ignoring_case("update"@, "insert"@),
        !text::same_ignoring_case("select"@, "insert"@),
        !text::same_ignoring_case("update"@, "delete"@),
        !text::same_ignoring_case("select"@, "delete"@),
        !text::same_ignoring_case("select"@, "update"@),
        !text::same_ignoring_case("FROM"@, "WHERE"@),
{
    reveal_strlit("value");
    reveal_strlit("key");
    reveal_strlit("INSERT");
    reveal_strlit("insert");
    reveal_strlit("DELETE");
    reveal_strlit("delete");
    reveal_strlit("UPDATE");
    reveal_strlit("update");
    reveal_strlit("SELECT");
    reveal_strlit("select");
    reveal_strlit("FROM");
    reveal_strlit("WHERE");
    assert(text::lower("delete"@[0]) != text::lower("insert"@[0]));
    assert(text::lower("update"@[0]) != text::lower("insert"@[0]));
    assert(text::lower("select"@[0]) != text::lower("insert"@[0]));
    assert(text::lower("update"@[0]) != text::lower("delete"@[0]));
    assert(text::lower("select"@[0]) != text::lower("delete"@[0]));
    assert(text::lower("select"@[0]) != text::lower("update"@[0]));
}

/// A word that is the keyword but for case.
pub proof fn first_words(t: TokenV, word: Seq<char>)
    requires
        same_token(t, TokenV::Word(word)),
        word == "INSERT"@ || word == "DELETE"@ || word == "UPDATE"@ || word == "SELECT"@,
    ensures
        sql_parser::is_keyword(Some(t), "insert"@) <==> word == "INSERT"@,
        sql_parser::is_keyword(Some(t), "delete"@) <==> word == "DELETE"@,
        sql_parser::is_keyword(Some(t), "update"@) <==> word == "UPDATE"@,
        sql_parser::is_keyword(Some(t), "select"@) <==> word == "SELECT"@,
        sql_parser::is_keyword(Some(t), word),
{
    words_differ();
    let w = t->Word_0;
    cases_agree(word, word, word);
    if t != TokenV::Word(word) {
        cases_agree(w, word, "insert"@);
        cases_agree(w, word, "delete"@);
        cases_agree(w, word, "update"@);
        cases_agree(w, word, "select"@);
    }
    cases_agree("INSERT"@, "insert"@, "insert"@);
    cases_agree("INSERT"@, "insert"@, "delete"@);
    cases_agree("INSERT"@, "insert"@, "update"@);
    cases_agree("INSERT"@, "insert"@, "select"@);
    cases_agree("DELETE"@, "delete"@, "insert"@);
    cases_agree("DELETE"@, "delete"@, "update"@);
    cases_agree("DELETE"@, "delete"@, "select"@);
    cases_agree("UPDATE"@, "update"@, "insert"@);
    cases_agree("UPDATE"@, "update"@, "delete"@);
    cases_agree("UPDATE"@, "update"@, "select"@);
    cases_agree("SELECT"@, "select"@, "insert"@);
    cases_agree("SELECT"@, "select"@, "delete"@);
    cases_agree("SELECT"@, "select"@, "update"@);
    cases_agree("insert"@, "insert"@, "delete"@);
    cases_agree("insert"@, "insert"@, "update"@);
}

pub proof fn keywords_are_said(ts: Seq<TokenV>, p: int, word: Seq<char>)
    ensures
        sql_parser::keyword_at(ts, p, word) is Ok <==> 0 <= p < ts.len() && same_token(
            ts[p],
            TokenV::Word(word),
        ),
        sql_parser::keyword_at(ts, p, word) is Ok ==> sql_parser::keyword_at(
            ts,
            p,
            word,
        )->Ok_0.1 == p + 1,
        sql_parser::is_keyword(at(ts, p), word) <==> sql_parser::keyword_at(ts, p, word) is Ok,
{
}

proof fn tables_are_said(ts: Seq<TokenV>, p: int)
    ensures
        sql_parser::table_at(ts, p) is Ok <==> 0 <= p < ts.len() && same_token(
            ts[p],
            TokenV::Word("kv"@),
        ),
        sql_parser::table_at(ts, p) is Ok ==> sql_parser::table_at(ts, p)->Ok_0.1 == p + 1,
{
}

pub proof fn columns_are_said(ts: Seq<TokenV>, p: int, column: ColumnName)
    ensures
        sql_parser::column_at(ts, p) == Ok::<(ColumnName, int), Seq<char>>((column, p + 1)) <==> 0
            <= p < ts.len() && same_token(ts[p], column_word(column)),
        sql_parser::column_at(ts, p) is Ok ==> sql_parser::column_at(ts, p)->Ok_0.1 == p + 1,
{
    words_differ();
    if 0 <= p < ts.len() {
        if let TokenV::Word(w) = ts[p] {
            cases_agree("key"@, "key"@, "key"@);
            cases_agree("value"@, "value"@, "value"@);
            if text::same_ignoring_case(w, "value"@) {
                cases_agree(w, "value"@, "key"@);
            }
        }
    }
}

proof fn conditions_are_said(ts: Seq<TokenV>, p: int, predicate: PredicateV)
    requires
        0 <= p,
    ensures
        sql_parser::predicate_at(ts, p) is Ok ==> p + 3 <= ts.len() && sql_parser::predicate_at(
            ts,
            p,
        )->Ok_0.1 == p + 3,
        sql_parser::predicate_at(ts, p) == Ok::<(PredicateV, int), Seq<char>>((predicate, p + 3))
            <==> {
            &&& p + 3 <= ts.len()
            &&& same_token(ts[p], column_word(predicate.column))
            &&& ts[p + 1] == comparison_mark(predicate.op)
            &&& ts[p + 2] == TokenV::StringLiteral(predicate.value)
        },
{
    columns_are_said(ts, p, ColumnName::Key);
    columns_are_said(ts, p, ColumnName::Value);
    columns_are_said(ts, p, predicate.column);
}

/// DELETE statements are said as they are written.
proof fn deletes_are_said(ts: Seq<TokenV>, predicate: PredicateV)
    ensures
        sql_parser::delete_at(ts, 0) is Ok ==> {
            let (statement, q) = sql_parser::delete_at(ts, 0)->Ok_0;
            q == 7 && q <= ts.len() && statement is Delete
        },
        sql_parser::delete_at(ts, 0) == Ok::<(SqlStatementV, int), Seq<char>>(
            (SqlStatementV::Delete { table: TableName::Kv, predicate }, 7),
        ) <==> ts.len() >= 7 && alike(ts.take(7), delete_tokens(predicate)),
{
    keywords_are_said(ts, 0, "DELETE"@);
    keywords_are_said(ts, 1, "FROM"@);
    tables_are_said(ts, 2);
    keywords_are_said(ts, 3, "WHERE"@);
    conditions_are_said(ts, 4, predicate);
    let us = delete_tokens(predicate);
    let front = ts.take(7);
    if ts.len() >= 7 {
        assert(us[0] == TokenV::Word("DELETE"@) && us[1] == TokenV::Word("FROM"@) && us[2]
            == TokenV::Word("kv"@) && us[3] == TokenV::Word("WHERE"@) && us[4] == column_word(
            predicate.column,
        ) && us[5] == comparison_mark(predicate.op) && us[6] == TokenV::StringLiteral(
            predicate.value,
        ));
        if alike(front, us) {
            assert(same_token(front[0], us[0]) && same_token(front[1], us[1]) && same_token(
                front[2],
                us[2],
            ) && same_token(front[3], us[3]) && same_token(front[4], us[4]) && same_token(
                front[5],
                us[5],
            ) && same_token(front[6], us[6]));
        }
    }
}

proof fn assignments_are_said(ts: Seq<TokenV>, p: int, value: Seq<char>)
    requires
        0 <= p,
    ensures
        sql_parser::assignment_at(ts, p) is Ok ==> p + 3 <= ts.len() && sql_parser::assignment_at(
            ts,
            p,
        )->Ok_0.1 == p + 3,
        sql_parser::assignment_at(ts, p) == Ok::<(Seq<char>, int), Seq<char>>((value, p + 3)) <==> {
            &&& p + 3 <= ts.len()
            &&& same_token(ts[p], TokenV::Word("value"@))
            &&& ts[p + 1] == TokenV::Eq
            &&& ts[p + 2] == TokenV::StringLiteral(value)
            &&& at(ts, p + 3) != Some(TokenV::Comma)
        },
{
    columns_are_said(ts, p, ColumnName::Key);
    columns_are_said(ts, p, ColumnName::Value);
}

/// UPDATE statements are said as they are written.
proof fn updates_are_said(ts: Seq<TokenV>, value: Seq<char>, predicate: PredicateV)
    ensures
        sql_parser::update_at(ts, 0) is Ok ==> {
            let (statement, q) = sql_parser::update_at(ts, 0)->Ok_0;
            q == 10 && q <= ts.len() && statement is Update
        },
        sql_parser::update_at(ts, 0) == Ok::<(SqlStatementV, int), Seq<char>>(
            (SqlStatementV::Update { table: TableName::Kv, value, predicate }, 10),
        ) <==> ts.len() >= 10 && alike(ts.take(10), update_tokens(value, predicate)),
{
    keywords_are_said(ts, 0, "UPDATE"@);
    tables_are_said(ts, 1);
    keywords_are_said(ts, 2, "SET"@);
    assignments_are_said(ts, 3, value);
    keywords_are_said(ts, 6, "WHERE"@);
    conditions_are_said(ts, 7, predicate);
    let us = update_tokens(value, predicate);
    let front = ts.take(10);
    if ts.len() >= 10 {
        assert(us[0] == TokenV::Word("UPDATE"@) && us[1] == TokenV::Word("kv"@) && us[2]
            == TokenV::Word("SET"@) && us[3] == TokenV::Word("value"@) && us[4] == TokenV::Eq
            && us[5] == TokenV::StringLiteral(value) && us[6] == TokenV::Word("WHERE"@) && us[7]
            == column_word(predicate.column) && us[8] == comparison_mark(predicate.op) && us[9]
            == TokenV::StringLiteral(predicate.value));
        if alike(front, us) {
            assert(same_token(front[0], us[0]) && same_token(front[1], us[1]) && same_token(
                front[2],
                us[2],
            ) && same_token(front[3], us[3]) && same_token(front[4], us[4]) && same_token(
                front[5],
                us[5],
            ) && same_token(front[6], us[6]) && same_token(front[7], us[7]) && same_token(
                front[8],
                us[8],
            ) && same_token(front[9], us[9]));
        }
    }
}

/// A list of columns is said as it is written, where no comma follows it.
pub proof fn lists_are_said(ts: Seq<TokenV>, p: int, columns: Seq<ColumnName>)
    requires
        0 <= p,
        columns.len() > 0,
        p + 2 * columns.len() - 1 <= ts.len(),
        alike(ts.subrange(p, p + 2 * columns.len() - 1), listed(columns)),
        at(ts, p + 2 * columns.len() - 1) != Some(TokenV::Comma),
    ensures
        sql_parser::columns_at(ts, p) == Ok::<(Seq<ColumnName>, int), Seq<char>>(
            (columns, p + 2 * columns.len() - 1),
        ),
    decreases columns.len(),
{
    let end = p + 2 * columns.len() - 1;
    let part = ts.subrange(p, end);
    let us = listed(columns);
    assert(same_token(part[0], us[0]));
    assert(us[0] == column_word(columns[0]));
    columns_are_said(ts, p, columns[0]);
    if columns.len() == 1 {
        assert(columns =~= seq![columns[0]]);
    } else {
        assert(same_token(part[1], us[1]));
        assert(us[1] == TokenV::Comma);
        let rest = columns.skip(1);
        let tail = ts.subrange(p + 2, end);
        let vs = listed(rest);
        assert forall|i: int| 0 <= i < tail.len() implies same_token(#[trigger] tail[i], vs[i]) by {
            assert(same_token(part[i + 2], us[i + 2]));
            assert((i + 2) % 2 == i % 2 && (i + 2) / 2 == i / 2 + 1);
            if i % 2 == 0 {
                assert(columns[i / 2 + 1] == rest[i / 2]);
            }
        }
        lists_are_said(ts, p + 2, rest);
        assert(seq![columns[0]] + rest =~= columns);
    }
}

/// What was read as a list of columns is such a list.
proof fn lists_were_said(ts: Seq<TokenV>, p: int)
    requires
        0 <= p,
        sql_parser::columns_at(ts, p) is Ok,
    ensures
        ({
            let (columns, end) = sql_parser::columns_at(ts, p)->Ok_0;
            &&& columns.len() > 0
            &&& end == p + 2 * columns.len() - 1
            &&& end <= ts.len()
            &&& alike(ts.subrange(p, end), listed(columns))
            &&& at(ts, end) != Some(TokenV::Comma)
        }),
    decreases ts.len() - p,
{
    let (columns, end) = sql_parser::columns_at(ts, p)->Ok_0;
    columns_are_said(ts, p, ColumnName::Key);
    columns_are_said(ts, p, ColumnName::Value);
    let first = sql_parser::column_at(ts, p)->Ok_0.0;
    columns_are_said(ts, p, first);
    let us = listed(columns);
    if at(ts, p + 1) == Some(TokenV::Comma) {
        lists_were_said(ts, p + 2);
        let rest = sql_parser::columns_at(ts, p + 2)->Ok_0.0;
        let part = ts.subrange(p, end);
        let tail = ts.subrange(p + 2, end);
        let vs = listed(rest);
        assert forall|i: int| 0 <= i < part.len() implies same_token(#[trigger] part[i], us[i]) by {
            if i == 0 {
                assert(us[0] == column_word(first));
            } else if i == 1 {
                assert(us[1] == TokenV::Comma);
            } else {
                let k = i - 2;
                assert(same_token(tail[k], vs[k]));
                assert(tail[k] == part[i]);
                assert(i % 2 == k % 2 && i / 2 == k / 2 + 1);
                if k % 2 == 0 {
                    assert(columns[k / 2 + 1] == rest[k / 2]);
                }
            }
        }
    } else {
        let part = ts.subrange(p, end);
        assert forall|i: int| 0 <= i < part.len() implies same_token(#[trigger] part[i], us[i]) by {
            assert(us[0] == column_word(first));
        }
    }
}

/// A SELECT is said as it is written.
proof fn selects_are_said(
    ts: Seq<TokenV>,
    asked: Seq<TokenV>,
    columns: Seq<ColumnName>,
    predicate: Option<PredicateV>,
)
    requires
        (columns.len() > 0 && asked == listed(columns)) || (asked == seq![TokenV::Star] && columns
            == seq![ColumnName::Key, ColumnName::Value]),
        ({
            let q = select_tokens(asked, predicate).len() as int;
            &&& ts.len() >= q
            &&& alike(ts.take(q), select_tokens(asked, predicate))
            &&& ts.len() == q || ts[q] == TokenV::Semicolon
        }),
    ensures
        sql_parser::select_at(ts, 0) == Ok::<(SqlStatementV, int), Seq<char>>(
            (
                SqlStatementV::Select { table: TableName::Kv, projections: columns, predicate },
                select_tokens(asked, predicate).len() as int,
            ),
        ),
{
    let us = select_tokens(asked, predicate);
    let q = us.len() as int;
    let n = asked.len() as int;
    let front = ts.take(q);
    assert(us[0] == TokenV::Word("SELECT"@) && us[n + 1] == TokenV::Word("FROM"@) && us[n + 2]
        == TokenV::Word("kv"@));
    assert(same_token(front[0], us[0]) && same_token(front[n + 1], us[n + 1]) && same_token(
        front[n + 2],
        us[n + 2],
    ));
    keywords_are_said(ts, 0, "SELECT"@);
    assert(us[1] == asked[0]);
    assert(same_token(front[1], us[1]));
    if asked == seq![TokenV::Star] && columns == seq![ColumnName::Key, ColumnName::Value] {
        assert(sql_parser::projection_at(ts, 1) == Ok::<(Seq<ColumnName>, int), Seq<char>>(
            (columns, n + 1),
        ));
    } else {
        let part = ts.subrange(1, n + 1);
        assert forall|k: int| 0 <= k < part.len() implies same_token(#[trigger] part[k], asked[k]) by {
            assert(same_token(front[k + 1], us[k + 1]));
            assert(us[k + 1] == asked[k]);
        }
        assert(asked[0] == column_word(columns[0]));
        lists_are_said(ts, 1, columns);
    }
    keywords_are_said(ts, n + 1, "FROM"@);
    tables_are_said(ts, n + 2);
    keywords_are_said(ts, n + 3, "WHERE"@);
    if let Some(p) = predicate {
        assert(us[n + 3] == TokenV::Word("WHERE"@) && us[n + 4] == column_word(p.column) && us[n
            + 5] == comparison_mark(p.op) && us[n + 6] == TokenV::StringLiteral(p.value));
        assert(same_token(front[n + 3], us[n + 3]) && same_token(front[n + 4], us[n + 4])
            && same_token(front[n + 5], us[n + 5]) && same_token(front[n + 6], us[n + 6]));
        conditions_are_said(ts, n + 4, p);
    }
}

/// What was read as a SELECT says it.
proof fn selects_were_said(ts: Seq<TokenV>) -> (body: Seq<TokenV>)
    requires
        sql_parser::select_at(ts, 0) is Ok,
    ensures
        ({
            let (statement, q) = sql_parser::select_at(ts, 0)->Ok_0;
            &&& q == body.len()
            &&& q <= ts.len()
            &&& say(body, statement)
            &&& alike(ts.take(q), body)
        }),
{
    let (statement, q) = sql_parser::select_at(ts, 0)->Ok_0;
    keywords_are_said(ts, 0, "SELECT"@);
    let (columns, m) = sql_parser::projection_at(ts, 1)->Ok_0;
    let asked = if at(ts, 1) == Some(TokenV::Star) {
        seq![TokenV::Star]
    } else {
        listed(columns)
    };
    let n = asked.len() as int;
    if at(ts, 1) != Some(TokenV::Star) {
        lists_were_said(ts, 1);
    }
    keywords_are_said(ts, m, "FROM"@);
    tables_are_said(ts, m + 1);
    keywords_are_said(ts, m + 2, "WHERE"@);
    let predicate = statement->Select_predicate;
    let body = select_tokens(asked, predicate);
    if let Some(p) = predicate {
        conditions_are_said(ts, m + 3, p);
    }
    let front = ts.take(q);
    assert forall|k: int| 0 <= k < front.len() implies same_token(#[trigger] front[k], body[k]) by {
        if 1 <= k < n + 1 {
            if asked != seq![TokenV::Star] || at(ts, 1) != Some(TokenV::Star) {
                assert(same_token(ts.subrange(1, m)[k - 1], asked[k - 1]));
                assert(ts.subrange(1, m)[k - 1] == front[k]);
            }
            assert(body[k] == asked[k - 1]);
        } else if k > n + 2 {
            assert(body[k] == condition_tokens(predicate->0)[k - n - 3]);
        }
    }
    body
}

proof fn literals_are_said(ts: Seq<TokenV>, p: int, first: Seq<char>, second: Seq<char>)
    requires
        0 <= p,
    ensures
        sql_parser::insert_values_at(ts, p) == Ok::<(Seq<Seq<char>>, int), Seq<char>>(
            (seq![first, second], p + 6),
        ) <==> p + 6 <= ts.len() && alike(ts.subrange(p, p + 6), values_tokens(first, second)),
{
    keywords_are_said(ts, p, "VALUES"@);
    let us = values_tokens(first, second);
    let part = ts.subrange(p, p + 6);
    if p + 6 <= ts.len() && alike(part, us) {
        assert(same_token(part[0], us[0]) && same_token(part[1], us[1]) && same_token(
            part[2],
            us[2],
        ) && same_token(part[3], us[3]) && same_token(part[4], us[4]) && same_token(
            part[5],
            us[5],
        ));
        assert(sql_parser::literals_at(ts, p + 4) == Ok::<(Seq<Seq<char>>, int), Seq<char>>(
            (seq![second], p + 5),
        ));
        assert(seq![first] + seq![second] =~= seq![first, second]);
    }
    if sql_parser::insert_values_at(ts, p) == Ok::<(Seq<Seq<char>>, int), Seq<char>>(
        (seq![first, second], p + 6),
    ) {
        let (values, end) = sql_parser::literals_at(ts, p + 2)->Ok_0;
        assert(values == seq![first, second] && end == p + 5);
        let rest = sql_parser::literals_at(ts, p + 4)->Ok_0.0;
        if at(ts, p + 3) == Some(TokenV::Comma) {
            let head = sql_parser::literal_at(ts, p + 2)->Ok_0.0;
            assert((seq![head] + rest)[0] == head);
            assert((seq![head] + rest)[1] == rest[0]);
            assert(seq![first, second][0] == first && seq![first, second][1] == second);
            assert(ts[p + 2] == TokenV::StringLiteral(first));
            assert(ts[p + 4] == TokenV::StringLiteral(second));
        } else {
            assert(values.len() == 1);
            assert(seq![first, second].len() == 2);
        }
        assert forall|k: int| 0 <= k < part.len() implies same_token(#[trigger] part[k], us[k]) by {
        }
    }
}

/// Each literal of a list takes two tokens, the last one takes one.
proof fn literals_take_places(ts: Seq<TokenV>, p: int)
    requires
        0 <= p,
        sql_parser::literals_at(ts, p) is Ok,
    ensures
        ({
            let (values, end) = sql_parser::literals_at(ts, p)->Ok_0;
            values.len() > 0 && end == p + 2 * values.len() - 1 && end <= ts.len()
        }),
    decreases ts.len() - p,
{
    if at(ts, p + 1) == Some(TokenV::Comma) {
        literals_take_places(ts, p + 2);
    }
}

/// Key and value are given once each, in either order.
proof fn both_are_assigned(columns: Seq<ColumnName>, values: Seq<Seq<char>>)
    requires
        columns.len() == values.len(),
    ensures
        sql_parser::assigned(columns, values, 0, None, None) matches Ok((key, value)) ==> {
            ||| columns == seq![ColumnName::Key, ColumnName::Value] && values == seq![key, value]
            ||| columns == seq![ColumnName::Value, ColumnName::Key] && values == seq![value, key]
        },
        columns == seq![ColumnName::Key, ColumnName::Value] ==> sql_parser::assigned(
            columns,
            values,
            0,
            None,
            None,
        ) == Ok::<(Seq<char>, Seq<char>), Seq<char>>((values[0], values[1])),
        columns == seq![ColumnName::Value, ColumnName::Key] ==> sql_parser::assigned(
            columns,
            values,
            0,
            None,
            None,
        ) == Ok::<(Seq<char>, Seq<char>), Seq<char>>((values[1], values[0])),
{
    reveal_with_fuel(sql_parser::assigned, 4);
    if let Ok((key, value)) = sql_parser::assigned(columns, values, 0, None, None) {
        assert(columns.len() == 2);
        if columns[0] == ColumnName::Key {
            assert(columns =~= seq![ColumnName::Key, ColumnName::Value]);
            assert(values =~= seq![key, value]);
        } else {
            assert(columns =~= seq![ColumnName::Value, ColumnName::Key]);
            assert(values =~= seq![value, key]);
        }
    }
}

/// An INSERT is said as it is written.
proof fn inserts_are_said(
    ts: Seq<TokenV>,
    names: Option<(ColumnName, ColumnName)>,
    first: Seq<char>,
    second: Seq<char>,
)
    requires
        ({
            let us = insert_into(names, first, second);
            &&& ts.len() >= us.len()
            &&& alike(ts.take(us.len() as int), us)
        }),
        names matches Some((one, other)) ==> one != other,
    ensures
        sql_parser::insert_at(ts, 0) == Ok::<(SqlStatementV, int), Seq<char>>(
            (
                if names == Some((ColumnName::Value, ColumnName::Key)) {
                    SqlStatementV::Insert { table: TableName::Kv, key: second, value: first }
                } else {
                    SqlStatementV::Insert { table: TableName::Kv, key: first, value: second }
                },
                insert_into(names, first, second).len() as int,
            ),
        ),
{
    let us = insert_into(names, first, second);
    let front = ts.take(us.len() as int);
    assert(us[0] == TokenV::Word("INSERT"@) && us[1] == TokenV::Word("INTO"@) && us[2]
        == TokenV::Word("kv"@));
    assert(same_token(front[0], us[0]) && same_token(front[1], us[1]) && same_token(
        front[2],
        us[2],
    ) && same_token(front[3], us[3]));
    keywords_are_said(ts, 0, "INSERT"@);
    keywords_are_said(ts, 1, "INTO"@);
    tables_are_said(ts, 2);
    let m: int = if names is Some {
        8
    } else {
        3
    };
    let columns = match names {
        Some((one, other)) => seq![one, other],
        None => seq![ColumnName::Key, ColumnName::Value],
    };
    if let Some((one, other)) = names {
        assert(us[3] == TokenV::LParen && us[4] == column_word(one) && us[5] == TokenV::Comma
            && us[6] == column_word(other) && us[7] == TokenV::RParen);
        assert(same_token(front[4], us[4]) && same_token(front[5], us[5]) && same_token(
            front[6],
            us[6],
        ) && same_token(front[7], us[7]));
        let part = ts.subrange(4, 7);
        let list = listed(columns);
        assert(list[0] == column_word(one) && list[1] == TokenV::Comma && list[2] == column_word(
            other,
        ));
        assert forall|k: int| 0 <= k < part.len() implies same_token(#[trigger] part[k], list[k]) by {
        }
        lists_are_said(ts, 4, columns);
    } else {
        assert(us[3] == TokenV::Word("VALUES"@));
    }
    assert(sql_parser::insert_columns_at(ts, 3) == Ok::<(Seq<ColumnName>, int), Seq<char>>(
        (columns, m),
    ));
    let part = ts.subrange(m, m + 6);
    let vs = values_tokens(first, second);
    assert forall|k: int| 0 <= k < part.len() implies same_token(#[trigger] part[k], vs[k]) by {
        assert(same_token(front[m + k], us[m + k]));
        assert(us[m + k] == vs[k]);
    }
    literals_are_said(ts, m, first, second);
    both_are_assigned(columns, seq![first, second]);
    if names is Some {
        assert(columns =~= seq![ColumnName::Key, ColumnName::Value] || columns =~= seq![
            ColumnName::Value,
            ColumnName::Key,
        ]);
    }
}

/// What was read as an INSERT says it.
proof fn inserts_were_said(ts: Seq<TokenV>) -> (body: Seq<TokenV>)
    requires
        sql_parser::insert_at(ts, 0) is Ok,
    ensures
        ({
            let (statement, q) = sql_parser::insert_at(ts, 0)->Ok_0;
            &&& q == body.len()
            &&& q <= ts.len()
            &&& say(body, statement)
            &&& alike(ts.take(q), body)
        }),
{
    let (statement, q) = sql_parser::insert_at(ts, 0)->Ok_0;
    keywords_are_said(ts, 0, "INSERT"@);
    keywords_are_said(ts, 1, "INTO"@);
    tables_are_said(ts, 2);
    let (columns, m) = sql_parser::insert_columns_at(ts, 3)->Ok_0;
    if at(ts, 3) == Some(TokenV::LParen) {
        lists_were_said(ts, 4);
    }
    let (values, end) = sql_parser::insert_values_at(ts, m)->Ok_0;
    keywords_are_said(ts, m, "VALUES"@);
    literals_take_places(ts, m + 2);
    both_are_assigned(columns, values);
    assert(values.len() == 2);
    assert(values =~= seq![values[0], values[1]]);
    literals_are_said(ts, m, values[0], values[1]);
    assert(columns =~= seq![columns[0], columns[1]]);
    let names = if at(ts, 3) == Some(TokenV::LParen) {
        Some((columns[0], columns[1]))
    } else {
        None
    };
    let body = insert_into(names, values[0], values[1]);
    let front = ts.take(q);
    let vs = values_tokens(values[0], values[1]);
    assert forall|k: int| 0 <= k < front.len() implies same_token(#[trigger] front[k], body[k]) by {
        if k >= m {
            assert(same_token(ts.subrange(m, m + 6)[k - m], vs[k - m]));
            assert(body[k] == vs[k - m]);
        } else if 4 <= k < 7 {
            let list = listed(columns);
            assert(same_token(ts.subrange(4, 7)[k - 4], list[k - 4]));
            assert(list[0] == column_word(columns[0]) && list[1] == TokenV::Comma && list[2]
                == column_word(columns[1]));
        }
    }
    body
}

/// What was read as a statement says it.
proof fn bodies_were_said(ts: Seq<TokenV>) -> (body: Seq<TokenV>)
    requires
        sql_parser::body_of(ts) is Ok,
    ensures
        ({
            let (statement, q) = sql_parser::body_of(ts)->Ok_0;
            &&& q == body.len()
            &&& q <= ts.len()
            &&& say(body, statement)
            &&& alike(ts.take(q), body)
        }),
{
    let (statement, q) = sql_parser::body_of(ts)->Ok_0;
    match statement {
        SqlStatementV::Insert { .. } => {
            if sql_parser::is_keyword(at(ts, 0), "insert"@) {
                inserts_were_said(ts)
            } else {
                read_as_its_kind(ts);
                Seq::empty()
            }
        },
        SqlStatementV::Delete { predicate, .. } => {
            read_as_its_kind(ts);
            deletes_are_said(ts, predicate);
            delete_tokens(predicate)
        },
        SqlStatementV::Update { value, predicate, .. } => {
            read_as_its_kind(ts);
            updates_are_said(ts, value, predicate);
            update_tokens(value, predicate)
        },
        SqlStatementV::Select { .. } => {
            read_as_its_kind(ts);
            selects_were_said(ts)
        },
    }
}

/// The first word decides what kind of statement it is.
proof fn read_as_its_kind(ts: Seq<TokenV>)
    requires
        sql_parser::body_of(ts) is Ok,
    ensures
        ({
            let found = sql_parser::body_of(ts);
            match found->Ok_0.0 {
                SqlStatementV::Insert { .. } => sql_parser::is_keyword(at(ts, 0), "insert"@)
                    && sql_parser::insert_at(ts, 0) == found,
                SqlStatementV::Delete { .. } => sql_parser::delete_at(ts, 0) == found,
                SqlStatementV::Update { .. } => sql_parser::update_at(ts, 0) == found,
                SqlStatementV::Select { .. } => sql_parser::select_at(ts, 0) == found,
            }
        }),
{
}

/// The tokens that say a statement stand first, and at most a semicolon follows.
spec fn said_first(ts: Seq<TokenV>, body: Seq<TokenV>, statement: SqlStatementV) -> bool {
    let q = body.len() as int;
    &&& say(body, statement)
    &&& ts.len() >= q
    &&& alike(ts.take(q), body)
    &&& ts.len() == q || (ts.len() == q + 1 && ts[q] == TokenV::Semicolon)
}

proof fn said_inserts_are_read(ts: Seq<TokenV>, body: Seq<TokenV>, statement: SqlStatementV)
    requires
        statement is Insert,
        said_first(ts, body, statement),
    ensures
        sql_parser::body_of(ts) == Ok::<(SqlStatementV, int), Seq<char>>(
            (statement, body.len() as int),
        ),
{
    let front = ts.take(body.len() as int);
    assert(same_token(front[0], body[0]));
    assert(body[0] == TokenV::Word("INSERT"@));
    words_differ();
    first_words(ts[0], "INSERT"@);
    if let SqlStatementV::Insert { table, key, value } = statement {
        assert(table is Kv);
        if body == insert_into(None, key, value) {
            inserts_are_said(ts, None, key, value);
        } else if body == insert_into(Some((ColumnName::Key, ColumnName::Value)), key, value) {
            inserts_are_said(ts, Some((ColumnName::Key, ColumnName::Value)), key, value);
        } else {
            inserts_are_said(ts, Some((ColumnName::Value, ColumnName::Key)), value, key);
        }
        assert(sql_parser::insert_at(ts, 0) == Ok::<(SqlStatementV, int), Seq<char>>(
            (statement, body.len() as int),
        ));
    }
}

proof fn said_deletes_are_read(ts: Seq<TokenV>, body: Seq<TokenV>, statement: SqlStatementV)
    requires
        statement is Delete,
        said_first(ts, body, statement),
    ensures
        sql_parser::body_of(ts) == Ok::<(SqlStatementV, int), Seq<char>>(
            (statement, body.len() as int),
        ),
{
    let front = ts.take(body.len() as int);
    assert(same_token(front[0], body[0]));
    assert(body[0] == TokenV::Word("DELETE"@));
    words_differ();
    first_words(ts[0], "DELETE"@);
    if let SqlStatementV::Delete { table, predicate } = statement {
        assert(table is Kv);
        deletes_are_said(ts, predicate);
    }
}

proof fn said_updates_are_read(ts: Seq<TokenV>, body: Seq<TokenV>, statement: SqlStatementV)
    requires
        statement is Update,
        said_first(ts, body, statement),
    ensures
        sql_parser::body_of(ts) == Ok::<(SqlStatementV, int), Seq<char>>(
            (statement, body.len() as int),
        ),
{
    let front = ts.take(body.len() as int);
    assert(same_token(front[0], body[0]));
    assert(body[0] == TokenV::Word("UPDATE"@));
    words_differ();
    first_words(ts[0], "UPDATE"@);
    if let SqlStatementV::Update { table, value, predicate } = statement {
        assert(table is Kv);
        updates_are_said(ts, value, predicate);
    }
}

proof fn said_selects_are_read(ts: Seq<TokenV>, body: Seq<TokenV>, statement: SqlStatementV)
    requires
        statement is Select,
        said_first(ts, body, statement),
    ensures
        sql_parser::body_of(ts) == Ok::<(SqlStatementV, int), Seq<char>>(
            (statement, body.len() as int),
        ),
{
    let front = ts.take(body.len() as int);
    assert(same_token(front[0], body[0]));
    assert(body[0] == TokenV::Word("SELECT"@));
    words_differ();
    first_words(ts[0], "SELECT"@);
    if let SqlStatementV::Select { table, projections, predicate } = statement {
        assert(table is Kv);
        if projections.len() > 0 && body == select_tokens(listed(projections), predicate) {
            selects_are_said(ts, listed(projections), projections, predicate);
        } else {
            selects_are_said(ts, seq![TokenV::Star], projections, predicate);
        }
    }
}

proof fn statements_end(ts: Seq<TokenV>, q: int, statement: SqlStatementV)
    requires
        sql_parser::body_of(ts) == Ok::<(SqlStatementV, int), Seq<char>>((statement, q)),
        0 <= q,
        ts.len() == q || (ts.len() == q + 1 && ts[q] == TokenV::Semicolon),
    ensures
        statement_of(ts) == Ok::<SqlStatementV, Seq<char>>(statement),
{
}

/// Tokens that say a statement, with or without a semicolon behind them, are
/// read as it.
proof fn what_is_said_is_read(
    ts: Seq<TokenV>,
    body: Seq<TokenV>,
    semicolon: bool,
    statement: SqlStatementV,
)
    requires
        say(body, statement),
        alike(ts, closed_by(body, semicolon)),
    ensures
        statement_of(ts) == Ok::<SqlStatementV, Seq<char>>(statement),
{
    let q = body.len() as int;
    let us = closed_by(body, semicolon);
    let front = ts.take(q);
    assert forall|k: int| 0 <= k < front.len() implies same_token(#[trigger] front[k], body[k]) by {
        assert(same_token(ts[k], us[k]));
        assert(us[k] == body[k]);
    }
    if semicolon {
        assert(us[q] == TokenV::Semicolon);
        assert(same_token(ts[q], us[q]));
    }
    assert(said_first(ts, body, statement));
    assert(sql_parser::body_of(ts) == Ok::<(SqlStatementV, int), Seq<char>>((statement, q))) by {
        match statement {
            SqlStatementV::Insert { .. } => said_inserts_are_read(ts, body, statement),
            SqlStatementV::Delete { .. } => said_deletes_are_read(ts, body, statement),
            SqlStatementV::Update { .. } => said_updates_are_read(ts, body, statement),
            SqlStatementV::Select { .. } => said_selects_are_read(ts, body, statement),
        }
    }
    statements_end(ts, q, statement);
}

/// Tokens are read as a statement exactly where they say it, in words of any
/// case, with or without a semicolon behind them.
pub proof fn statements_are_read_as_said(ts: Seq<TokenV>, statement: SqlStatementV)
    ensures
        statement_of(ts) == Ok::<SqlStatementV, Seq<char>>(statement) <==> exists|
            body: Seq<TokenV>,
            semicolon: bool,
        |
            say(body, statement) && alike(ts, #[trigger] closed_by(body, semicolon)),
{
    if statement_of(ts) == Ok::<SqlStatementV, Seq<char>>(statement) {
        let body = bodies_were_said(ts);
        let q = body.len() as int;
        let semicolon = at(ts, q) == Some(TokenV::Semicolon);
        let us = closed_by(body, semicolon);
        assert forall|k: int| 0 <= k < ts.len() implies same_token(#[trigger] ts[k], us[k]) by {
            if k < q {
                assert(same_token(ts.take(q)[k], body[k]));
            }
        }
        assert(alike(ts, us));
    }
    if exists|body: Seq<TokenV>, semicolon: bool|
        say(body, statement) && alike(ts, #[trigger] closed_by(body, semicolon)) {
        let (body, semicolon) = choose|body: Seq<TokenV>, semicolon: bool|
            say(body, statement) && alike(ts, #[trigger] closed_by(body, semicolon));
        what_is_said_is_read(ts, body, semicolon, statement);
    }
}

/// Reading does not depend on the case of words.
pub proof fn case_makes_no_difference(ts: Seq<TokenV>, us: Seq<TokenV>)
    requires
        alike(ts, us),
        statement_of(us) is Ok,
    ensures
        statement_of(ts) == statement_of(us),
{
    let statement = statement_of(us)->Ok_0;
    statements_are_read_as_said(us, statement);
    let (body, semicolon) = choose|body: Seq<TokenV>, semicolon: bool|
        say(body, statement) && alike(us, #[trigger] closed_by(body, semicolon));
    let vs = closed_by(body, semicolon);
    assert forall|k: int| 0 <= k < ts.len() implies same_token(#[trigger] ts[k], vs[k]) by {
        assert(same_token(us[k], vs[k]));
        if let (TokenV::Word(a), TokenV::Word(b)) = (ts[k], us[k]) {
            if text::same_ignoring_case(a, b) {
                if let TokenV::Word(c) = vs[k] {
                    cases_agree(b, b, c);
                    cases_agree(a, b, c);
                }
            }
        }
    }
    what_is_said_is_read(ts, body, semicolon, statement);
}

} // verus!
