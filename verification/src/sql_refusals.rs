//! What statements that are none are answered with.
use vstd::prelude::*;

use crate::sql_ast::{ColumnName, SqlStatementV, TableName};
use crate::sql_grammar;
use crate::sql_grammar::{alike, listed, same_token};
use crate::sql_lexer;
use crate::sql_lexer::TokenV;
use crate::sql_parser;
use crate::sql_parser::{at, statement_of};
use crate::text;

verus! {

/// The answer where a keyword has to stand: the keyword, and the word that
/// stands there instead if there is one.
pub open spec fn misses_keyword(token: Option<TokenV>, keyword: Seq<char>, message: Seq<char>) -> bool {
    match token {
        Some(TokenV::Word(word)) => message == "expected keyword "@ + keyword + ", found "@ + word,
        _ => message == "expected keyword "@ + keyword,
    }
}

/// The answer where the table has to stand.
pub open spec fn misses_table(token: Option<TokenV>, message: Seq<char>) -> bool {
    match token {
        Some(TokenV::Word(word)) => message == "unsupported table '"@ + word + "' (expected kv)"@,
        _ => message == "expected table name"@,
    }
}

/// The answer where a column has to stand.
pub open spec fn misses_column(token: Option<TokenV>, message: Seq<char>) -> bool {
    match token {
        Some(TokenV::Word(word)) => message == "unsupported column '"@ + word
            + "' (expected key or value)"@,
        _ => message == "expected column name"@,
    }
}

/// A word stands there, in any case.
pub open spec fn is_word(token: Option<TokenV>, word: Seq<char>) -> bool {
    token is Some && same_token(token->0, TokenV::Word(word))
}

/// The name of a column stands there.
pub open spec fn is_column(token: Option<TokenV>) -> bool {
    is_word(token, "key"@) || is_word(token, "value"@)
}

/// The message of what is refused.
pub open spec fn refused(ts: Seq<TokenV>) -> Option<Seq<char>> {
    match statement_of(ts) {
        Ok(_) => None,
        Err(message) => Some(message),
    }
}

/// No tokens are an empty statement, and a statement starts with one of four
/// words.
pub proof fn statements_start_with_their_word(ts: Seq<TokenV>)
    ensures
        ts.len() == 0 ==> refused(ts) == Some("empty SQL statement"@),
        ts.len() > 0 && !is_word(at(ts, 0), "insert"@) && !is_word(at(ts, 0), "delete"@)
            && !is_word(at(ts, 0), "update"@) && !is_word(at(ts, 0), "select"@) ==> refused(ts)
            == Some("unsupported SQL statement; expected INSERT/DELETE/UPDATE/SELECT"@),
{
}

proof fn first_words_differ()
    ensures
        "INSERT"@ != "DELETE"@,
        "INSERT"@ != "UPDATE"@,
        "INSERT"@ != "SELECT"@,
        "DELETE"@ != "UPDATE"@,
        "DELETE"@ != "SELECT"@,
        "UPDATE"@ != "SELECT"@,
{
    reveal_strlit("INSERT");
    reveal_strlit("DELETE");
    reveal_strlit("UPDATE");
    reveal_strlit("SELECT");
    assert("INSERT"@[0] == 'I' && "DELETE"@[0] == 'D' && "UPDATE"@[0] == 'U' && "SELECT"@[0]
        == 'S');
}

proof fn words_and_columns(ts: Seq<TokenV>, p: int)
    ensures
        is_column(at(ts, p)) <==> sql_parser::column_at(ts, p) is Ok,
        sql_parser::column_at(ts, p) is Ok ==> sql_parser::column_at(ts, p)->Ok_0.1 == p + 1,
        sql_parser::column_at(ts, p) matches Err(message) ==> misses_column(at(ts, p), message),
        sql_parser::table_at(ts, p) is Ok <==> is_word(at(ts, p), "kv"@),
        sql_parser::table_at(ts, p) is Ok ==> sql_parser::table_at(ts, p)->Ok_0.1 == p + 1,
{
    sql_grammar::cases_agree("key"@, "key"@, "key"@);
    sql_grammar::cases_agree("value"@, "value"@, "value"@);
    sql_grammar::cases_agree("kv"@, "kv"@, "kv"@);
}

/// What is wrong with a condition from a place on: the first of column,
/// comparison and literal that is none.
pub open spec fn misses_condition(ts: Seq<TokenV>, p: int, message: Seq<char>) -> bool {
    if !is_column(at(ts, p)) {
        misses_column(at(ts, p), message)
    } else if at(ts, p + 1) != Some(TokenV::Eq) && at(ts, p + 1) != Some(TokenV::NotEq) {
        message == "expected comparison operator '=' or '!=', found "@ + sql_lexer::found_debug(
            at(ts, p + 1),
        )
    } else {
        message == "expected single-quoted literal"@
    }
}

proof fn conditions_are_refused(ts: Seq<TokenV>, p: int)
    ensures
        sql_parser::predicate_at(ts, p) matches Err(message) ==> misses_condition(ts, p, message),
        sql_parser::predicate_at(ts, p) is Ok ==> sql_parser::predicate_at(ts, p)->Ok_0.1 == p + 3,
        sql_parser::predicate_at(ts, p) is Ok <==> is_column(at(ts, p)) && (at(ts, p + 1) == Some(
            TokenV::Eq,
        ) || at(ts, p + 1) == Some(TokenV::NotEq)) && at(ts, p + 2) is Some && at(ts, p + 2)->0
            is StringLiteral,
{
    words_and_columns(ts, p);
}

/// A DELETE that is none is refused for its first word that is not in its place.
pub proof fn deletes_are_refused_for_the_first_fault(ts: Seq<TokenV>)
    requires
        is_word(at(ts, 0), "DELETE"@),
        refused(ts) is Some,
    ensures
        ({
            let message = refused(ts)->0;
            if !is_word(at(ts, 1), "FROM"@) {
                misses_keyword(at(ts, 1), "FROM"@, message)
            } else if !is_word(at(ts, 2), "kv"@) {
                misses_table(at(ts, 2), message)
            } else if !is_word(at(ts, 3), "WHERE"@) {
                misses_keyword(at(ts, 3), "WHERE"@, message)
            } else if !(is_column(at(ts, 4)) && (at(ts, 5) == Some(TokenV::Eq) || at(ts, 5)
                == Some(TokenV::NotEq)) && at(ts, 6) is Some && at(ts, 6)->0 is StringLiteral) {
                misses_condition(ts, 4, message)
            } else {
                message == "unexpected tokens after end of statement"@
            }
        }),
{
    first_words_differ();
    assert(at(ts, 0) == Some(ts[0]));
    sql_grammar::first_words(ts[0], "DELETE"@);
    sql_grammar::keywords_are_said(ts, 0, "DELETE"@);
    words_and_columns(ts, 2);
    conditions_are_refused(ts, 4);
    sql_grammar::keywords_are_said(ts, 1, "FROM"@);
    sql_grammar::keywords_are_said(ts, 3, "WHERE"@);
    sql_grammar::cases_agree("FROM"@, "FROM"@, "FROM"@);
    sql_grammar::cases_agree("WHERE"@, "WHERE"@, "WHERE"@);
}

/// So is an UPDATE. It sets the value column, and that alone.
pub proof fn updates_are_refused_for_the_first_fault(ts: Seq<TokenV>)
    requires
        is_word(at(ts, 0), "UPDATE"@),
        refused(ts) is Some,
    ensures
        ({
            let message = refused(ts)->0;
            if !is_word(at(ts, 1), "kv"@) {
                misses_table(at(ts, 1), message)
            } else if !is_word(at(ts, 2), "SET"@) {
                misses_keyword(at(ts, 2), "SET"@, message)
            } else if !is_column(at(ts, 3)) {
                misses_column(at(ts, 3), message)
            } else if is_word(at(ts, 3), "key"@) {
                message == "only `SET value = ...` is supported"@
            } else if at(ts, 4) != Some(TokenV::Eq) {
                message == "expected token Eq, found "@ + sql_lexer::found_debug(at(ts, 4))
            } else if !(at(ts, 5) is Some && at(ts, 5)->0 is StringLiteral) {
                message == "expected single-quoted literal"@
            } else if at(ts, 6) == Some(TokenV::Comma) {
                message == "multiple UPDATE assignments are not supported yet"@
            } else if !is_word(at(ts, 6), "WHERE"@) {
                misses_keyword(at(ts, 6), "WHERE"@, message)
            } else if !(is_column(at(ts, 7)) && (at(ts, 8) == Some(TokenV::Eq) || at(ts, 8)
                == Some(TokenV::NotEq)) && at(ts, 9) is Some && at(ts, 9)->0 is StringLiteral) {
                misses_condition(ts, 7, message)
            } else {
                message == "unexpected tokens after end of statement"@
            }
        }),
{
    first_words_differ();
    assert(at(ts, 0) == Some(ts[0]));
    sql_grammar::first_words(ts[0], "UPDATE"@);
    sql_grammar::keywords_are_said(ts, 0, "UPDATE"@);
    words_and_columns(ts, 1);
    words_and_columns(ts, 3);
    sql_grammar::columns_are_said(ts, 3, ColumnName::Key);
    sql_grammar::columns_are_said(ts, 3, ColumnName::Value);
    conditions_are_refused(ts, 7);
    sql_grammar::keywords_are_said(ts, 2, "SET"@);
    sql_grammar::keywords_are_said(ts, 6, "WHERE"@);
    sql_grammar::cases_agree("SET"@, "SET"@, "SET"@);
    sql_grammar::cases_agree("WHERE"@, "WHERE"@, "WHERE"@);
    assert("expected token "@ + "Eq"@ + ", found "@ =~= "expected token Eq, found "@) by {
        reveal_strlit("expected token ");
        reveal_strlit("Eq");
        reveal_strlit(", found ");
        reveal_strlit("expected token Eq, found ");
    }
}

/// A SELECT of everything that is none is refused for its first word that is not
/// in its place.
pub proof fn selects_are_refused_for_the_first_fault(ts: Seq<TokenV>)
    requires
        is_word(at(ts, 0), "SELECT"@),
        at(ts, 1) == Some(TokenV::Star),
        refused(ts) is Some,
    ensures
        ({
            let message = refused(ts)->0;
            if !is_word(at(ts, 2), "FROM"@) {
                misses_keyword(at(ts, 2), "FROM"@, message)
            } else if !is_word(at(ts, 3), "kv"@) {
                misses_table(at(ts, 3), message)
            } else if is_word(at(ts, 4), "WHERE"@) && !(is_column(at(ts, 5)) && (at(ts, 6) == Some(
                TokenV::Eq,
            ) || at(ts, 6) == Some(TokenV::NotEq)) && at(ts, 7) is Some && at(ts, 7)->0
                is StringLiteral) {
                misses_condition(ts, 5, message)
            } else {
                message == "unexpected tokens after end of statement"@
            }
        }),
{
    first_words_differ();
    assert(at(ts, 0) == Some(ts[0]));
    sql_grammar::first_words(ts[0], "SELECT"@);
    sql_grammar::keywords_are_said(ts, 0, "SELECT"@);
    words_and_columns(ts, 3);
    conditions_are_refused(ts, 5);
    sql_grammar::keywords_are_said(ts, 2, "FROM"@);
    sql_grammar::keywords_are_said(ts, 4, "WHERE"@);
    sql_grammar::cases_agree("FROM"@, "FROM"@, "FROM"@);
    sql_grammar::cases_agree("WHERE"@, "WHERE"@, "WHERE"@);
}

/// A SELECT names a column wherever it names any: the first thing that it asks
/// for is a star or a column.
pub proof fn selects_ask_for_columns(ts: Seq<TokenV>)
    requires
        is_word(at(ts, 0), "SELECT"@),
        at(ts, 1) != Some(TokenV::Star),
        !is_column(at(ts, 1)),
    ensures
        refused(ts) is Some && misses_column(at(ts, 1), refused(ts)->0),
{
    first_words_differ();
    assert(at(ts, 0) == Some(ts[0]));
    sql_grammar::first_words(ts[0], "SELECT"@);
    sql_grammar::keywords_are_said(ts, 0, "SELECT"@);
    words_and_columns(ts, 1);
}

/// Literals with commas between them.
pub open spec fn literal_list(values: Seq<Seq<char>>) -> Seq<TokenV> {
    Seq::new(
        (2 * values.len() - 1) as nat,
        |j: int|
            if j % 2 == 0 {
                TokenV::StringLiteral(values[j / 2])
            } else {
                TokenV::Comma
            },
    )
}

proof fn literal_lists_are_said(ts: Seq<TokenV>, p: int, values: Seq<Seq<char>>)
    requires
        0 <= p,
        values.len() > 0,
        p + 2 * values.len() - 1 <= ts.len(),
        ts.subrange(p, p + 2 * values.len() - 1) == literal_list(values),
        at(ts, p + 2 * values.len() - 1) != Some(TokenV::Comma),
    ensures
        sql_parser::literals_at(ts, p) == Ok::<(Seq<Seq<char>>, int), Seq<char>>(
            (values, p + 2 * values.len() - 1),
        ),
    decreases values.len(),
{
    let end = p + 2 * values.len() - 1;
    let part = ts.subrange(p, end);
    assert(part[0] == literal_list(values)[0]);
    if values.len() == 1 {
        assert(values =~= seq![values[0]]);
    } else {
        assert(part[1] == literal_list(values)[1]);
        let rest = values.skip(1);
        let tail = ts.subrange(p + 2, end);
        let vs = literal_list(rest);
        assert forall|i: int| 0 <= i < tail.len() implies #[trigger] tail[i] == vs[i] by {
            assert(part[i + 2] == literal_list(values)[i + 2]);
            assert((i + 2) % 2 == i % 2 && (i + 2) / 2 == i / 2 + 1);
            if i % 2 == 0 {
                assert(values[i / 2 + 1] == rest[i / 2]);
            }
        }
        assert(tail =~= vs);
        literal_lists_are_said(ts, p + 2, rest);
        assert(seq![values[0]] + rest =~= values);
    }
}

/// INSERT INTO kv (...) VALUES (...)
pub open spec fn insert_lists(columns: Seq<ColumnName>, values: Seq<Seq<char>>) -> Seq<TokenV> {
    seq![
        TokenV::Word("INSERT"@),
        TokenV::Word("INTO"@),
        TokenV::Word("kv"@),
        TokenV::LParen,
    ] + listed(columns) + seq![TokenV::RParen, TokenV::Word("VALUES"@), TokenV::LParen]
        + literal_list(values) + seq![TokenV::RParen]
}

proof fn listed_inserts_are_parsed(columns: Seq<ColumnName>, values: Seq<Seq<char>>)
    requires
        columns.len() > 0,
        values.len() > 0,
    ensures
        sql_parser::insert_at(insert_lists(columns, values), 0) == if columns.len()
            != values.len() {
            Err("INSERT column count does not match VALUES count"@)
        } else {
            match sql_parser::assigned(columns, values, 0, None, None) {
                Err(message) => Err(message),
                Ok((key, value)) => Ok(
                    (
                        SqlStatementV::Insert { table: TableName::Kv, key, value },
                        insert_lists(columns, values).len() as int,
                    ),
                ),
            }
        },
{
    let ts = insert_lists(columns, values);
    let n = 2 * columns.len() - 1;
    let m = 2 * values.len() - 1;
    sql_grammar::cases_agree("INSERT"@, "INSERT"@, "INSERT"@);
    sql_grammar::cases_agree("INTO"@, "INTO"@, "INTO"@);
    sql_grammar::cases_agree("kv"@, "kv"@, "kv"@);
    sql_grammar::cases_agree("VALUES"@, "VALUES"@, "VALUES"@);
    assert(ts.len() == 4 + n + 3 + m + 1);
    assert(ts.subrange(4, 4 + n) =~= listed(columns));
    assert(ts[4 + n] == TokenV::RParen);
    assert(ts[5 + n] == TokenV::Word("VALUES"@));
    assert(ts[6 + n] == TokenV::LParen);
    assert(ts.subrange(7 + n, 7 + n + m) =~= literal_list(values));
    assert(ts[7 + n + m] == TokenV::RParen);
    sql_grammar::lists_are_said(ts, 4, columns);
    literal_lists_are_said(ts, 7 + n, values);
    assert(sql_parser::insert_columns_at(ts, 3) == Ok::<(Seq<ColumnName>, int), Seq<char>>(
        (columns, 5 + n),
    ));
    assert(sql_parser::insert_values_at(ts, 5 + n) == Ok::<(Seq<Seq<char>>, int), Seq<char>>(
        (values, ts.len() as int),
    ));
}

/// What an INSERT with lists of columns and values is refused for: lists of
/// different lengths; a column that comes again, the first of them; or a column
/// that is missing.
pub proof fn inserts_are_refused_for_their_columns(
    columns: Seq<ColumnName>,
    values: Seq<Seq<char>>,
)
    requires
        columns.len() > 0,
        values.len() > 0,
    ensures
        refused(insert_lists(columns, values)) == if columns.len() != values.len() {
            Some("INSERT column count does not match VALUES count"@)
        } else if columns.len() == 1 {
            if columns[0] == ColumnName::Key {
                Some("INSERT missing value column value"@)
            } else {
                Some("INSERT missing key column value"@)
            }
        } else {
            let again = if columns[0] == columns[1] {
                Some(columns[1])
            } else if columns.len() > 2 {
                Some(columns[2])
            } else {
                None
            };
            match again {
                Some(ColumnName::Key) => Some("INSERT specifies duplicate key column"@),
                Some(ColumnName::Value) => Some("INSERT specifies duplicate value column"@),
                None => None,
            }
        },
{
    let ts = insert_lists(columns, values);
    listed_inserts_are_parsed(columns, values);
    first_words_differ();
    assert(ts[0] == TokenV::Word("INSERT"@));
    sql_grammar::first_words(ts[0], "INSERT"@);
    if columns.len() == values.len() {
        reveal_with_fuel(sql_parser::assigned, 4);
    }
}

/// Messages show a token by the name of its kind, with the text of a word or of
/// a literal in quotes, and a missing one as none.
pub proof fn tokens_are_shown_by_name(t: Seq<char>, token: TokenV)
    ensures
        sql_lexer::token_debug(TokenV::Word(t)) == "Word("@ + text::debug_form(t) + ")"@,
        sql_lexer::token_debug(TokenV::StringLiteral(t)) == "StringLiteral("@ + text::debug_form(t)
            + ")"@,
        sql_lexer::token_debug(TokenV::Comma) == "Comma"@,
        sql_lexer::token_debug(TokenV::LParen) == "LParen"@,
        sql_lexer::token_debug(TokenV::RParen) == "RParen"@,
        sql_lexer::token_debug(TokenV::Eq) == "Eq"@,
        sql_lexer::token_debug(TokenV::NotEq) == "NotEq"@,
        sql_lexer::token_debug(TokenV::Star) == "Star"@,
        sql_lexer::token_debug(TokenV::Semicolon) == "Semicolon"@,
        sql_lexer::found_debug(Some(token)) == "Some("@ + sql_lexer::token_debug(token) + ")"@,
        sql_lexer::found_debug(None) == "None"@,
{
}

/// The answer where a mark has to stand.
pub open spec fn misses_mark(token: Option<TokenV>, mark: TokenV, message: Seq<char>) -> bool {
    message == "expected token "@ + sql_lexer::token_debug(mark) + ", found "@
        + sql_lexer::found_debug(token)
}

/// An INSERT starts with INTO, the table, and a list of columns or VALUES; and
/// behind VALUES a literal follows in parentheses.
pub proof fn inserts_are_refused_for_the_first_fault(ts: Seq<TokenV>)
    requires
        is_word(at(ts, 0), "INSERT"@),
    ensures
        !is_word(at(ts, 1), "INTO"@) ==> refused(ts) is Some && misses_keyword(
            at(ts, 1),
            "INTO"@,
            refused(ts)->0,
        ),
        is_word(at(ts, 1), "INTO"@) && !is_word(at(ts, 2), "kv"@) ==> refused(ts) is Some
            && misses_table(at(ts, 2), refused(ts)->0),
        is_word(at(ts, 1), "INTO"@) && is_word(at(ts, 2), "kv"@) ==> {
            &&& at(ts, 3) != Some(TokenV::LParen) && !is_word(at(ts, 3), "VALUES"@) ==> refused(
                ts,
            ) is Some && misses_keyword(at(ts, 3), "VALUES"@, refused(ts)->0)
            &&& at(ts, 3) == Some(TokenV::LParen) && !is_column(at(ts, 4)) ==> refused(ts) is Some
                && misses_column(at(ts, 4), refused(ts)->0)
            &&& is_word(at(ts, 3), "VALUES"@) && at(ts, 4) != Some(TokenV::LParen) ==> refused(
                ts,
            ) is Some && misses_mark(at(ts, 4), TokenV::LParen, refused(ts)->0)
            &&& is_word(at(ts, 3), "VALUES"@) && at(ts, 4) == Some(TokenV::LParen) && !(at(
                ts,
                5,
            ) is Some && at(ts, 5)->0 is StringLiteral) ==> refused(ts) == Some(
                "expected single-quoted literal"@,
            )
        },
{
    first_words_differ();
    assert(at(ts, 0) == Some(ts[0]));
    sql_grammar::first_words(ts[0], "INSERT"@);
    sql_grammar::keywords_are_said(ts, 0, "INSERT"@);
    sql_grammar::keywords_are_said(ts, 1, "INTO"@);
    words_and_columns(ts, 2);
    words_and_columns(ts, 4);
    sql_grammar::keywords_are_said(ts, 3, "VALUES"@);
    sql_grammar::cases_agree("INTO"@, "INTO"@, "INTO"@);
    sql_grammar::cases_agree("VALUES"@, "VALUES"@, "VALUES"@);
}

/// Behind a comma in a list of columns another column has to stand.
pub proof fn lists_go_on_behind_a_comma(ts: Seq<TokenV>, p: int, columns: Seq<ColumnName>)
    requires
        0 <= p,
        columns.len() > 0,
        p + 2 * columns.len() <= ts.len(),
        alike(ts.subrange(p, p + 2 * columns.len() - 1), listed(columns)),
        at(ts, p + 2 * columns.len() - 1) == Some(TokenV::Comma),
        !is_column(at(ts, p + 2 * columns.len())),
    ensures
        sql_parser::columns_at(ts, p) is Err && misses_column(
            at(ts, p + 2 * columns.len()),
            sql_parser::columns_at(ts, p)->Err_0,
        ),
    decreases columns.len(),
{
    let end = p + 2 * columns.len() - 1;
    let part = ts.subrange(p, end);
    let us = listed(columns);
    assert(same_token(part[0], us[0]));
    assert(us[0] == sql_grammar::column_word(columns[0]));
    sql_grammar::columns_are_said(ts, p, columns[0]);
    if columns.len() == 1 {
        words_and_columns(ts, p + 2);
    } else {
        assert(same_token(part[1], us[1]));
        assert(us[1] == TokenV::Comma);
        let rest = columns.skip(1);
        let tail = ts.subrange(p + 2, end);
        let vs = listed(rest);
        assert forall|i: int| 0 <= i < tail.len() implies same_token(#[trigger] tail[i], vs[i]) by {
            assert(same_token(part[i + 2], us[i + 2]));
            assert((i + 2) % 2 == i % 2 && (i + 2) / 2 == i / 2 + 1);
            if i % 2 == 0 {
                assert(columns[i / 2 + 1] == rest[i / 2]);
            }
        }
        lists_go_on_behind_a_comma(ts, p + 2, rest);
    }
}

} // verus!
