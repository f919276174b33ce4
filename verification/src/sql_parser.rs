//! Parsing tokens into a statement.
use vstd::prelude::*;

use crate::sql_ast::{
    ColumnName, ComparisonOp, Predicate, PredicateV, SqlError, SqlResult, SqlStatement,
    SqlStatementV, TableName,
};
use crate::sql_lexer;
use crate::sql_lexer::{lex, show_found, show_token, Token, TokenV};
use crate::text;
use crate::text::{join2, join3, join4, text_equal_ignoring_case};

verus! {

/// A place in a sequence of tokens behind something that was parsed, or the
/// message of the fault.
pub type Parsed<T> = Result<(T, int), Seq<char>>;

/// The token at a place.
pub open spec fn at(ts: Seq<TokenV>, p: int) -> Option<TokenV> {
    if 0 <= p < ts.len() {
        Some(ts[p])
    } else {
        None
    }
}

/// A word that is the keyword, in any case.
pub open spec fn is_keyword(token: Option<TokenV>, keyword: Seq<char>) -> bool {
    token matches Some(TokenV::Word(word)) && text::same_ignoring_case(word, keyword)
}

pub open spec fn keyword_at(ts: Seq<TokenV>, p: int, keyword: Seq<char>) -> Parsed<()> {
    match at(ts, p) {
        Some(TokenV::Word(word)) => if text::same_ignoring_case(word, keyword) {
            Ok(((), p + 1))
        } else {
            Err("expected keyword "@ + keyword + ", found "@ + word)
        },
        _ => Err("expected keyword "@ + keyword),
    }
}

pub open spec fn table_at(ts: Seq<TokenV>, p: int) -> Parsed<TableName> {
    match at(ts, p) {
        Some(TokenV::Word(word)) => if text::same_ignoring_case(word, "kv"@) {
            Ok((TableName::Kv, p + 1))
        } else {
            Err("unsupported table '"@ + word + "' (expected kv)"@)
        },
        _ => Err("expected table name"@),
    }
}

pub open spec fn column_at(ts: Seq<TokenV>, p: int) -> Parsed<ColumnName> {
    match at(ts, p) {
        Some(TokenV::Word(word)) => if text::same_ignoring_case(word, "key"@) {
            Ok((ColumnName::Key, p + 1))
        } else if text::same_ignoring_case(word, "value"@) {
            Ok((ColumnName::Value, p + 1))
        } else {
            Err("unsupported column '"@ + word + "' (expected key or value)"@)
        },
        _ => Err("expected column name"@),
    }
}

pub open spec fn literal_at(ts: Seq<TokenV>, p: int) -> Parsed<Seq<char>> {
    match at(ts, p) {
        Some(TokenV::StringLiteral(value)) => Ok((value, p + 1)),
        _ => Err("expected single-quoted literal"@),
    }
}

pub open spec fn token_at(ts: Seq<TokenV>, p: int, expected: TokenV) -> Parsed<()> {
    if at(ts, p) == Some(expected) {
        Ok(((), p + 1))
    } else {
        Err(
            "expected token "@ + sql_lexer::token_debug(expected) + ", found "@
                + sql_lexer::found_debug(at(ts, p)),
        )
    }
}

/// Columns with commas between them.
pub open spec fn columns_at(ts: Seq<TokenV>, p: int) -> Parsed<Seq<ColumnName>>
    decreases ts.len() - p,
{
    match column_at(ts, p) {
        Err(message) => Err(message),
        Ok((column, next)) => if at(ts, next) == Some(TokenV::Comma) {
            match columns_at(ts, next + 1) {
                Err(message) => Err(message),
                Ok((rest, end)) => Ok((seq![column] + rest, end)),
            }
        } else {
            Ok((seq![column], next))
        },
    }
}

/// Literals with commas between them.
pub open spec fn literals_at(ts: Seq<TokenV>, p: int) -> Parsed<Seq<Seq<char>>>
    decreases ts.len() - p,
{
    match literal_at(ts, p) {
        Err(message) => Err(message),
        Ok((value, next)) => if at(ts, next) == Some(TokenV::Comma) {
            match literals_at(ts, next + 1) {
                Err(message) => Err(message),
                Ok((rest, end)) => Ok((seq![value] + rest, end)),
            }
        } else {
            Ok((seq![value], next))
        },
    }
}

/// A column, a comparison and a literal.
pub open spec fn predicate_at(ts: Seq<TokenV>, p: int) -> Parsed<PredicateV> {
    match column_at(ts, p) {
        Err(message) => Err(message),
        Ok((column, q)) => {
            let op = match at(ts, q) {
                Some(TokenV::Eq) => Some(ComparisonOp::Eq),
                Some(TokenV::NotEq) => Some(ComparisonOp::NotEq),
                _ => None,
            };
            match op {
                None => Err(
                    "expected comparison operator '=' or '!=', found "@ + sql_lexer::found_debug(
                        at(ts, q),
                    ),
                ),
                Some(op) => match literal_at(ts, q + 1) {
                    Err(message) => Err(message),
                    Ok((value, end)) => Ok((PredicateV { column, op, value }, end)),
                },
            }
        },
    }
}

/// The columns of an INSERT in parentheses, or both in order where none are
/// named.
pub open spec fn insert_columns_at(ts: Seq<TokenV>, p: int) -> Parsed<Seq<ColumnName>> {
    if at(ts, p) == Some(TokenV::LParen) {
        match columns_at(ts, p + 1) {
            Err(message) => Err(message),
            Ok((columns, q)) => match token_at(ts, q, TokenV::RParen) {
                Err(message) => Err(message),
                Ok((_, end)) => Ok((columns, end)),
            },
        }
    } else {
        Ok((seq![ColumnName::Key, ColumnName::Value], p))
    }
}

/// The values of an INSERT in parentheses.
pub open spec fn insert_values_at(ts: Seq<TokenV>, p: int) -> Parsed<Seq<Seq<char>>> {
    match keyword_at(ts, p, "VALUES"@) {
        Err(message) => Err(message),
        Ok((_, q)) => match token_at(ts, q, TokenV::LParen) {
            Err(message) => Err(message),
            Ok((_, q)) => match literals_at(ts, q) {
                Err(message) => Err(message),
                Ok((values, q)) => match token_at(ts, q, TokenV::RParen) {
                    Err(message) => Err(message),
                    Ok((_, end)) => Ok((values, end)),
                },
            },
        },
    }
}

/// Key and value from place `i` on, beside those found before; no column may
/// come twice.
pub open spec fn assigned(
    columns: Seq<ColumnName>,
    values: Seq<Seq<char>>,
    i: int,
    key: Option<Seq<char>>,
    value: Option<Seq<char>>,
) -> Result<(Seq<char>, Seq<char>), Seq<char>>
    decreases columns.len() - i,
{
    if i >= columns.len() {
        match (key, value) {
            (None, _) => Err("INSERT missing key column value"@),
            (Some(_), None) => Err("INSERT missing value column value"@),
            (Some(k), Some(v)) => Ok((k, v)),
        }
    } else {
        match columns[i] {
            ColumnName::Key => if key is Some {
                Err("INSERT specifies duplicate key column"@)
            } else {
                assigned(columns, values, i + 1, Some(values[i]), value)
            },
            ColumnName::Value => if value is Some {
                Err("INSERT specifies duplicate value column"@)
            } else {
                assigned(columns, values, i + 1, key, Some(values[i]))
            },
        }
    }
}

pub open spec fn insert_at(ts: Seq<TokenV>, p: int) -> Parsed<SqlStatementV> {
    match keyword_at(ts, p, "INSERT"@) {
        Err(message) => Err(message),
        Ok((_, q)) => match keyword_at(ts, q, "INTO"@) {
            Err(message) => Err(message),
            Ok((_, q)) => match table_at(ts, q) {
                Err(message) => Err(message),
                Ok((table, q)) => match insert_columns_at(ts, q) {
                    Err(message) => Err(message),
                    Ok((columns, q)) => match insert_values_at(ts, q) {
                        Err(message) => Err(message),
                        Ok((values, end)) => if columns.len() != values.len() {
                            Err("INSERT column count does not match VALUES count"@)
                        } else {
                            match assigned(columns, values, 0, None, None) {
                                Err(message) => Err(message),
                                Ok((key, value)) => Ok(
                                    (SqlStatementV::Insert { table, key, value }, end),
                                ),
                            }
                        },
                    },
                },
            },
        },
    }
}

pub open spec fn delete_at(ts: Seq<TokenV>, p: int) -> Parsed<SqlStatementV> {
    match keyword_at(ts, p, "DELETE"@) {
        Err(message) => Err(message),
        Ok((_, q)) => match keyword_at(ts, q, "FROM"@) {
            Err(message) => Err(message),
            Ok((_, q)) => match table_at(ts, q) {
                Err(message) => Err(message),
                Ok((table, q)) => match keyword_at(ts, q, "WHERE"@) {
                    Err(message) => Err(message),
                    Ok((_, q)) => match predicate_at(ts, q) {
                        Err(message) => Err(message),
                        Ok((predicate, end)) => Ok(
                            (SqlStatementV::Delete { table, predicate }, end),
                        ),
                    },
                },
            },
        },
    }
}

/// What an UPDATE assigns to the value column.
pub open spec fn assignment_at(ts: Seq<TokenV>, p: int) -> Parsed<Seq<char>> {
    match column_at(ts, p) {
        Err(message) => Err(message),
        Ok((column, q)) => if column != ColumnName::Value {
            Err("only `SET value = ...` is supported"@)
        } else {
            match token_at(ts, q, TokenV::Eq) {
                Err(message) => Err(message),
                Ok((_, q)) => match literal_at(ts, q) {
                    Err(message) => Err(message),
                    Ok((value, end)) => if at(ts, end) == Some(TokenV::Comma) {
                        Err("multiple UPDATE assignments are not supported yet"@)
                    } else {
                        Ok((value, end))
                    },
                },
            }
        },
    }
}

pub open spec fn update_at(ts: Seq<TokenV>, p: int) -> Parsed<SqlStatementV> {
    match keyword_at(ts, p, "UPDATE"@) {
        Err(message) => Err(message),
        Ok((_, q)) => match table_at(ts, q) {
            Err(message) => Err(message),
            Ok((table, q)) => match keyword_at(ts, q, "SET"@) {
                Err(message) => Err(message),
                Ok((_, q)) => match assignment_at(ts, q) {
                    Err(message) => Err(message),
                    Ok((value, q)) => match keyword_at(ts, q, "WHERE"@) {
                        Err(message) => Err(message),
                        Ok((_, q)) => match predicate_at(ts, q) {
                            Err(message) => Err(message),
                            Ok((predicate, end)) => Ok(
                                (SqlStatementV::Update { table, value, predicate }, end),
                            ),
                        },
                    },
                },
            },
        },
    }
}

/// What a SELECT projects: a star for both columns, or a list.
pub open spec fn projection_at(ts: Seq<TokenV>, p: int) -> Parsed<Seq<ColumnName>> {
    if at(ts, p) == Some(TokenV::Star) {
        Ok((seq![ColumnName::Key, ColumnName::Value], p + 1))
    } else {
        columns_at(ts, p)
    }
}

pub open spec fn select_at(ts: Seq<TokenV>, p: int) -> Parsed<SqlStatementV> {
    match keyword_at(ts, p, "SELECT"@) {
        Err(message) => Err(message),
        Ok((_, q)) => match projection_at(ts, q) {
            Err(message) => Err(message),
            Ok((projections, q)) => match keyword_at(ts, q, "FROM"@) {
                Err(message) => Err(message),
                Ok((_, q)) => match table_at(ts, q) {
                    Err(message) => Err(message),
                    Ok((table, q)) => if is_keyword(at(ts, q), "WHERE"@) {
                        match predicate_at(ts, q + 1) {
                            Err(message) => Err(message),
                            Ok((predicate, end)) => Ok(
                                (
                                    SqlStatementV::Select {
                                        table,
                                        projections,
                                        predicate: Some(predicate),
                                    },
                                    end,
                                ),
                            ),
                        }
                    } else {
                        Ok((SqlStatementV::Select { table, projections, predicate: None }, q))
                    },
                },
            },
        },
    }
}

/// The statement that starts at the first token, by its first word.
pub open spec fn body_of(ts: Seq<TokenV>) -> Parsed<SqlStatementV> {
    if is_keyword(at(ts, 0), "insert"@) {
        insert_at(ts, 0)
    } else if is_keyword(at(ts, 0), "delete"@) {
        delete_at(ts, 0)
    } else if is_keyword(at(ts, 0), "update"@) {
        update_at(ts, 0)
    } else if is_keyword(at(ts, 0), "select"@) {
        select_at(ts, 0)
    } else if ts.len() > 0 {
        Err("unsupported SQL statement; expected INSERT/DELETE/UPDATE/SELECT"@)
    } else {
        Err("empty SQL statement"@)
    }
}

/// The statement that the tokens are, with or without a closing semicolon.
pub open spec fn statement_of(ts: Seq<TokenV>) -> Result<SqlStatementV, Seq<char>> {
    match body_of(ts) {
        Err(message) => Err(message),
        Ok((statement, q)) => {
            let end = if at(ts, q) == Some(TokenV::Semicolon) {
                q + 1
            } else {
                q
            };
            if end < ts.len() {
                Err("unexpected tokens after end of statement"@)
            } else {
                Ok(statement)
            }
        },
    }
}

/// The statement that a text is.
pub open spec fn parsed(sql: Seq<char>) -> Result<SqlStatementV, Seq<char>> {
    match sql_lexer::tokens_from(sql, 0) {
        Err(message) => Err(message),
        Ok(tokens) => statement_of(tokens),
    }
}

/// A place in a sequence of tokens.
#[derive(Debug)]
pub struct Parser {
    pub tokens: Vec<Token>,
    pub pos: usize,
}

/// What a parsing step makes of a parser: on success the parser stands behind
/// what was parsed, and its tokens are as they were.
pub open spec fn step<T, W>(
    before: Parser,
    after: Parser,
    r: SqlResult<T>,
    value: spec_fn(T) -> W,
    expected: Parsed<W>,
) -> bool {
    &&& after.tokens == before.tokens
    &&& match expected {
        Ok((w, end)) => r matches Ok(v) && value(v) == w && after.pos == end && after.wf(),
        Err(message) => r matches Err(e) && e.message@ == message,
    }
}

impl Parser {
    /// The place lies within the tokens or right behind them.
    pub open spec fn wf(&self) -> bool {
        self.pos <= self.tokens@.len()
    }

    pub open spec fn ts(&self) -> Seq<TokenV> {
        sql_lexer::token_views(self.tokens@)
    }

    pub fn new(tokens: Vec<Token>) -> (r: Self)
        ensures
            r.wf(),
            r.tokens == tokens,
            r.pos == 0,
    {
        Parser { tokens, pos: 0 }
    }

    fn peek(&self) -> (r: Option<&Token>)
        requires
            self.wf(),
        ensures
            match at(self.ts(), self.pos as int) {
                Some(t) => r matches Some(found) && found@ == t,
                None => r is None,
            },
    {
        if self.pos < self.tokens.len() {
            Some(&self.tokens[self.pos])
        } else {
            None
        }
    }

    fn next(&mut self) -> (r: Option<Token>)
        requires
            old(self).wf(),
        ensures
            final(self).wf(),
            final(self).tokens == old(self).tokens,
            match at(old(self).ts(), old(self).pos as int) {
                Some(t) => r matches Some(found) && found@ == t && final(self).pos == old(self).pos
                    + 1,
                None => r is None && final(self).pos == old(self).pos,
            },
    {
        if self.pos < self.tokens.len() {
            let token = self.tokens[self.pos].clone();
            self.pos += 1;
            Some(token)
        } else {
            None
        }
    }

    fn expect_keyword(&mut self, keyword: &str) -> (r: SqlResult<()>)
        requires
            old(self).wf(),
        ensures
            step(
                *old(self),
                *final(self),
                r,
                |v: ()| v,
                keyword_at(old(self).ts(), old(self).pos as int, keyword@),
            ),
    {
        match self.next() {
            Some(Token::Word(word)) => {
                if text_equal_ignoring_case(word.as_str(), keyword) {
                    Ok(())
                } else {
                    let message = join4("expected keyword ", keyword, ", found ", word.as_str());
                    Err(SqlError { message })
                }
            },
            _ => Err(SqlError { message: join2("expected keyword ", keyword) }),
        }
    }

    fn expect_table(&mut self) -> (r: SqlResult<TableName>)
        requires
            old(self).wf(),
        ensures
            step(
                *old(self),
                *final(self),
                r,
                |v: TableName| v,
                table_at(old(self).ts(), old(self).pos as int),
            ),
    {
        match self.next() {
            Some(Token::Word(word)) => {
                if text_equal_ignoring_case(word.as_str(), "kv") {
                    Ok(TableName::Kv)
                } else {
                    let message = join3("unsupported table '", word.as_str(), "' (expected kv)");
                    Err(SqlError { message })
                }
            },
            _ => Err(SqlError::new("expected table name")),
        }
    }

    fn expect_column(&mut self) -> (r: SqlResult<ColumnName>)
        requires
            old(self).wf(),
        ensures
            step(
                *old(self),
                *final(self),
                r,
                |v: ColumnName| v,
                column_at(old(self).ts(), old(self).pos as int),
            ),
    {
        match self.next() {
            Some(Token::Word(word)) => {
                if text_equal_ignoring_case(word.as_str(), "key") {
                    Ok(ColumnName::Key)
                } else if text_equal_ignoring_case(word.as_str(), "value") {
                    Ok(ColumnName::Value)
                } else {
                    let message = join3(
                        "unsupported column '",
                        word.as_str(),
                        "' (expected key or value)",
                    );
                    Err(SqlError { message })
                }
            },
            _ => Err(SqlError::new("expected column name")),
        }
    }

    fn expect_string_literal(&mut self) -> (r: SqlResult<String>)
        requires
            old(self).wf(),
        ensures
            step(
                *old(self),
                *final(self),
                r,
                |v: String| v@,
                literal_at(old(self).ts(), old(self).pos as int),
            ),
    {
        match self.next() {
            Some(Token::StringLiteral(value)) => Ok(value),
            _ => Err(SqlError::new("expected single-quoted literal")),
        }
    }

    /// Expects a token that is neither a word nor a literal.
    fn expect_token(&mut self, expected: Token) -> (r: SqlResult<()>)
        requires
            old(self).wf(),
            !(expected is Word),
            !(expected is StringLiteral),
        ensures
            step(
                *old(self),
                *final(self),
                r,
                |v: ()| v,
                token_at(old(self).ts(), old(self).pos as int, expected@),
            ),
    {
        let token = self.next();
        let same = match &token {
            Some(found) => same_mark(found, &expected),
            None => false,
        };
        if same {
            return Ok(());
        }
        let message = join4(
            "expected token ",
            show_token(&expected).as_str(),
            ", found ",
            show_found(&token).as_str(),
        );
        Err(SqlError { message })
    }

    /// Steps over the token if it stands here; it is neither a word nor a
    /// literal.
    fn maybe_token(&mut self, expected: Token) -> (r: bool)
        requires
            old(self).wf(),
            !(expected is Word),
            !(expected is StringLiteral),
        ensures
            final(self).wf(),
            final(self).tokens == old(self).tokens,
            r == (at(old(self).ts(), old(self).pos as int) == Some(expected@)),
            final(self).pos == if r {
                old(self).pos + 1
            } else {
                old(self).pos as int
            },
    {
        let here = match self.peek() {
            Some(found) => same_mark(found, &expected),
            None => false,
        };
        let _length: usize = self.tokens.len();
        if here {
            self.pos += 1;
        }
        here
    }
}

/// Whether a token is the given mark.
fn same_mark(token: &Token, mark: &Token) -> (r: bool)
    requires
        !(*mark is Word),
        !(*mark is StringLiteral),
    ensures
        r == (token@ == mark@),
{
    match (token, mark) {
        (Token::Comma, Token::Comma) => true,
        (Token::LParen, Token::LParen) => true,
        (Token::RParen, Token::RParen) => true,
        (Token::Eq, Token::Eq) => true,
        (Token::NotEq, Token::NotEq) => true,
        (Token::Star, Token::Star) => true,
        (Token::Semicolon, Token::Semicolon) => true,
        _ => false,
    }
}

impl Parser {
    fn parse_columns(&mut self) -> (r: SqlResult<Vec<ColumnName>>)
        requires
            old(self).wf(),
        ensures
            step(
                *old(self),
                *final(self),
                r,
                |v: Vec<ColumnName>| v@,
                columns_at(old(self).ts(), old(self).pos as int),
            ),
    {
        let mut columns: Vec<ColumnName> = Vec::new();
        let ghost ts = self.ts();
        let ghost start = self.pos as int;
        proof {
            if columns_at(ts, start) is Ok {
                assert(columns_at(ts, start)->Ok_0.0 =~= columns@ + columns_at(
                    ts,
                    start,
                )->Ok_0.0);
            }
        }
        loop
            invariant
                self.wf(),
                self.tokens == old(self).tokens,
                ts == self.ts(),
                ts == old(self).ts(),
                start == old(self).pos,
                columns_at(ts, start) == match columns_at(ts, self.pos as int) {
                    Ok((rest, end)) => Ok::<(Seq<ColumnName>, int), Seq<char>>(
                        (columns@ + rest, end),
                    ),
                    Err(message) => Err(message),
                },
            decreases self.tokens@.len() - self.pos,
        {
            let ghost seen = columns@;
            let column = match self.expect_column() {
                Ok(column) => column,
                Err(error) => {
                    return Err(error);
                },
            };
            columns.push(column);
            let ghost after = self.pos as int;
            if !self.maybe_token(Token::Comma) {
                assert(seen + seq![column] =~= columns@);
                return Ok(columns);
            }
            proof {
                if columns_at(ts, after + 1) is Ok {
                    let rest = columns_at(ts, after + 1)->Ok_0.0;
                    assert(seen + (seq![column] + rest) =~= columns@ + rest);
                }
            }
        }
    }

    fn parse_literals(&mut self) -> (r: SqlResult<Vec<String>>)
        requires
            old(self).wf(),
        ensures
            step(
                *old(self),
                *final(self),
                r,
                |v: Vec<String>| text::texts(v@),
                literals_at(old(self).ts(), old(self).pos as int),
            ),
    {
        let mut values: Vec<String> = Vec::new();
        let ghost ts = self.ts();
        let ghost start = self.pos as int;
        proof {
            if literals_at(ts, start) is Ok {
                assert(literals_at(ts, start)->Ok_0.0 =~= text::texts(values@) + literals_at(
                    ts,
                    start,
                )->Ok_0.0);
            }
        }
        loop
            invariant
                self.wf(),
                self.tokens == old(self).tokens,
                ts == self.ts(),
                ts == old(self).ts(),
                start == old(self).pos,
                literals_at(ts, start) == match literals_at(ts, self.pos as int) {
                    Ok((rest, end)) => Ok::<(Seq<Seq<char>>, int), Seq<char>>(
                        (text::texts(values@) + rest, end),
                    ),
                    Err(message) => Err(message),
                },
            decreases self.tokens@.len() - self.pos,
        {
            let ghost seen = text::texts(values@);
            let value = match self.expect_string_literal() {
                Ok(value) => value,
                Err(error) => {
                    return Err(error);
                },
            };
            let ghost v = value@;
            values.push(value);
            assert(text::texts(values@) =~= seen.push(v));
            let ghost after = self.pos as int;
            if !self.maybe_token(Token::Comma) {
                assert(seen + seq![v] =~= text::texts(values@));
                return Ok(values);
            }
            proof {
                if literals_at(ts, after + 1) is Ok {
                    let rest = literals_at(ts, after + 1)->Ok_0.0;
                    assert(seen + (seq![v] + rest) =~= text::texts(values@) + rest);
                }
            }
        }
    }

    fn parse_predicate(&mut self) -> (r: SqlResult<Predicate>)
        requires
            old(self).wf(),
        ensures
            step(
                *old(self),
                *final(self),
                r,
                |v: Predicate| v@,
                predicate_at(old(self).ts(), old(self).pos as int),
            ),
    {
        let column = match self.expect_column() {
            Ok(column) => column,
            Err(error) => {
                return Err(error);
            },
        };
        let token = self.next();
        let op = match &token {
            Some(Token::Eq) => ComparisonOp::Eq,
            Some(Token::NotEq) => ComparisonOp::NotEq,
            _ => {
                let message = join2(
                    "expected comparison operator '=' or '!=', found ",
                    show_found(&token).as_str(),
                );
                return Err(SqlError { message });
            },
        };
        let value = match self.expect_string_literal() {
            Ok(value) => value,
            Err(error) => {
                return Err(error);
            },
        };
        Ok(Predicate { column, op, value })
    }

    fn parse_insert_columns(&mut self) -> (r: SqlResult<Vec<ColumnName>>)
        requires
            old(self).wf(),
        ensures
            step(
                *old(self),
                *final(self),
                r,
                |v: Vec<ColumnName>| v@,
                insert_columns_at(old(self).ts(), old(self).pos as int),
            ),
    {
        if self.maybe_token(Token::LParen) {
            let columns = match self.parse_columns() {
                Ok(columns) => columns,
                Err(error) => {
                    return Err(error);
                },
            };
            match self.expect_token(Token::RParen) {
                Ok(()) => Ok(columns),
                Err(error) => Err(error),
            }
        } else {
            let columns = both_columns();
            Ok(columns)
        }
    }

    fn parse_insert_values(&mut self) -> (r: SqlResult<Vec<String>>)
        requires
            old(self).wf(),
        ensures
            step(
                *old(self),
                *final(self),
                r,
                |v: Vec<String>| text::texts(v@),
                insert_values_at(old(self).ts(), old(self).pos as int),
            ),
    {
        match self.expect_keyword("VALUES") {
            Ok(()) => {},
            Err(error) => {
                return Err(error);
            },
        }
        match self.expect_token(Token::LParen) {
            Ok(()) => {},
            Err(error) => {
                return Err(error);
            },
        }
        let values = match self.parse_literals() {
            Ok(values) => values,
            Err(error) => {
                return Err(error);
            },
        };
        match self.expect_token(Token::RParen) {
            Ok(()) => Ok(values),
            Err(error) => Err(error),
        }
    }

    pub fn parse_insert_statement(&mut self) -> (r: SqlResult<SqlStatement>)
        requires
            old(self).wf(),
        ensures
            step(
                *old(self),
                *final(self),
                r,
                |v: SqlStatement| v@,
                insert_at(old(self).ts(), old(self).pos as int),
            ),
    {
        match self.expect_keyword("INSERT") {
            Ok(()) => {},
            Err(error) => {
                return Err(error);
            },
        }
        match self.expect_keyword("INTO") {
            Ok(()) => {},
            Err(error) => {
                return Err(error);
            },
        }
        let table = match self.expect_table() {
            Ok(table) => table,
            Err(error) => {
                return Err(error);
            },
        };
        let columns = match self.parse_insert_columns() {
            Ok(columns) => columns,
            Err(error) => {
                return Err(error);
            },
        };
        let values = match self.parse_insert_values() {
            Ok(values) => values,
            Err(error) => {
                return Err(error);
            },
        };
        if columns.len() != values.len() {
            return Err(SqlError::new("INSERT column count does not match VALUES count"));
        }
        match assign_values(&columns, &values) {
            Ok((key, value)) => Ok(SqlStatement::Insert { table, key, value }),
            Err(error) => Err(error),
        }
    }

    pub fn parse_delete_statement(&mut self) -> (r: SqlResult<SqlStatement>)
        requires
            old(self).wf(),
        ensures
            step(
                *old(self),
                *final(self),
                r,
                |v: SqlStatement| v@,
                delete_at(old(self).ts(), old(self).pos as int),
            ),
    {
        match self.expect_keyword("DELETE") {
            Ok(()) => {},
            Err(error) => {
                return Err(error);
            },
        }
        match self.expect_keyword("FROM") {
            Ok(()) => {},
            Err(error) => {
                return Err(error);
            },
        }
        let table = match self.expect_table() {
            Ok(table) => table,
            Err(error) => {
                return Err(error);
            },
        };
        match self.expect_keyword("WHERE") {
            Ok(()) => {},
            Err(error) => {
                return Err(error);
            },
        }
        match self.parse_predicate() {
            Ok(predicate) => Ok(SqlStatement::Delete { table, predicate }),
            Err(error) => Err(error),
        }
    }

    fn parse_assignment(&mut self) -> (r: SqlResult<String>)
        requires
            old(self).wf(),
        ensures
            step(
                *old(self),
                *final(self),
                r,
                |v: String| v@,
                assignment_at(old(self).ts(), old(self).pos as int),
            ),
    {
        let column = match self.expect_column() {
            Ok(column) => column,
            Err(error) => {
                return Err(error);
            },
        };
        if column != ColumnName::Value {
            return Err(SqlError::new("only `SET value = ...` is supported"));
        }
        match self.expect_token(Token::Eq) {
            Ok(()) => {},
            Err(error) => {
                return Err(error);
            },
        }
        let value = match self.expect_string_literal() {
            Ok(value) => value,
            Err(error) => {
                return Err(error);
            },
        };
        if self.maybe_token(Token::Comma) {
            return Err(SqlError::new("multiple UPDATE assignments are not supported yet"));
        }
        Ok(value)
    }

    pub fn parse_update_statement(&mut self) -> (r: SqlResult<SqlStatement>)
        requires
            old(self).wf(),
        ensures
            step(
                *old(self),
                *final(self),
                r,
                |v: SqlStatement| v@,
                update_at(old(self).ts(), old(self).pos as int),
            ),
    {
        match self.expect_keyword("UPDATE") {
            Ok(()) => {},
            Err(error) => {
                return Err(error);
            },
        }
        let table = match self.expect_table() {
            Ok(table) => table,
            Err(error) => {
                return Err(error);
            },
        };
        match self.expect_keyword("SET") {
            Ok(()) => {},
            Err(error) => {
                return Err(error);
            },
        }
        let value = match self.parse_assignment() {
            Ok(value) => value,
            Err(error) => {
                return Err(error);
            },
        };
        match self.expect_keyword("WHERE") {
            Ok(()) => {},
            Err(error) => {
                return Err(error);
            },
        }
        match self.parse_predicate() {
            Ok(predicate) => Ok(SqlStatement::Update { table, value, predicate }),
            Err(error) => Err(error),
        }
    }

    fn parse_projection(&mut self) -> (r: SqlResult<Vec<ColumnName>>)
        requires
            old(self).wf(),
        ensures
            step(
                *old(self),
                *final(self),
                r,
                |v: Vec<ColumnName>| v@,
                projection_at(old(self).ts(), old(self).pos as int),
            ),
    {
        if self.maybe_token(Token::Star) {
            let columns = both_columns();
            Ok(columns)
        } else {
            self.parse_columns()
        }
    }

    pub fn parse_select_statement(&mut self) -> (r: SqlResult<SqlStatement>)
        requires
            old(self).wf(),
        ensures
            step(
                *old(self),
                *final(self),
                r,
                |v: SqlStatement| v@,
                select_at(old(self).ts(), old(self).pos as int),
            ),
    {
        match self.expect_keyword("SELECT") {
            Ok(()) => {},
            Err(error) => {
                return Err(error);
            },
        }
        let projections = match self.parse_projection() {
            Ok(projections) => projections,
            Err(error) => {
                return Err(error);
            },
        };
        match self.expect_keyword("FROM") {
            Ok(()) => {},
            Err(error) => {
                return Err(error);
            },
        }
        let table = match self.expect_table() {
            Ok(table) => table,
            Err(error) => {
                return Err(error);
            },
        };
        if self.here_is("WHERE") {
            let _ = self.next();
            match self.parse_predicate() {
                Ok(predicate) => Ok(
                    SqlStatement::Select { table, projections, predicate: Some(predicate) },
                ),
                Err(error) => Err(error),
            }
        } else {
            Ok(SqlStatement::Select { table, projections, predicate: None })
        }
    }

    /// Whether the keyword stands here.
    fn here_is(&self, keyword: &str) -> (r: bool)
        requires
            self.wf(),
        ensures
            r == is_keyword(at(self.ts(), self.pos as int), keyword@),
    {
        match self.peek() {
            Some(Token::Word(word)) => text_equal_ignoring_case(word.as_str(), keyword),
            _ => false,
        }
    }

    /// Parses a whole statement.
    pub fn parse_statement(&mut self) -> (r: SqlResult<SqlStatement>)
        requires
            old(self).pos == 0,
        ensures
            match statement_of(old(self).ts()) {
                Ok(statement) => r matches Ok(found) && found@ == statement,
                Err(message) => r matches Err(e) && e.message@ == message,
            },
    {
        let parsed = if self.here_is("insert") {
            self.parse_insert_statement()
        } else if self.here_is("delete") {
            self.parse_delete_statement()
        } else if self.here_is("update") {
            self.parse_update_statement()
        } else if self.here_is("select") {
            self.parse_select_statement()
        } else if self.peek().is_some() {
            Err(
                SqlError::new("unsupported SQL statement; expected INSERT/DELETE/UPDATE/SELECT"),
            )
        } else {
            Err(SqlError::new("empty SQL statement"))
        };
        let statement = match parsed {
            Ok(statement) => statement,
            Err(error) => {
                return Err(error);
            },
        };
        let _ = self.maybe_token(Token::Semicolon);
        if self.peek().is_some() {
            return Err(SqlError::new("unexpected tokens after end of statement"));
        }
        Ok(statement)
    }
}

/// Both columns, in the order of the table.
pub fn both_columns() -> (r: Vec<ColumnName>)
    ensures
        r@ == seq![ColumnName::Key, ColumnName::Value],
{
    let mut columns: Vec<ColumnName> = Vec::new();
    columns.push(ColumnName::Key);
    columns.push(ColumnName::Value);
    assert(columns@ =~= seq![ColumnName::Key, ColumnName::Value]);
    columns
}

/// Key and value of an INSERT, by the columns that the values stand for.
fn assign_values(columns: &Vec<ColumnName>, values: &Vec<String>) -> (r: SqlResult<
    (String, String),
>)
    requires
        columns@.len() == values@.len(),
    ensures
        match assigned(columns@, text::texts(values@), 0, None, None) {
            Ok((key, value)) => r matches Ok(found) && found.0@ == key && found.1@ == value,
            Err(message) => r matches Err(e) && e.message@ == message,
        },
{
    let ghost all = text::texts(values@);
    let mut key: Option<String> = None;
    let mut value: Option<String> = None;
    let mut i: usize = 0;
    while i < columns.len()
        invariant
            i <= columns@.len(),
            columns@.len() == values@.len(),
            all == text::texts(values@),
            assigned(columns@, all, 0, None, None) == assigned(
                columns@,
                all,
                i as int,
                match key {
                    Some(k) => Some(k@),
                    None => None,
                },
                match value {
                    Some(v) => Some(v@),
                    None => None,
                },
            ),
        decreases columns@.len() - i,
    {
        assert(all[i as int] == values@[i as int]@);
        match columns[i] {
            ColumnName::Key => {
                if key.is_some() {
                    return Err(SqlError::new("INSERT specifies duplicate key column"));
                }
                key = Some(values[i].clone());
            },
            ColumnName::Value => {
                if value.is_some() {
                    return Err(SqlError::new("INSERT specifies duplicate value column"));
                }
                value = Some(values[i].clone());
            },
        }
        i += 1;
    }
    match key {
        None => Err(SqlError::new("INSERT missing key column value")),
        Some(k) => match value {
            None => Err(SqlError::new("INSERT missing value column value")),
            Some(v) => Ok((k, v)),
        },
    }
}

/// Parses a statement.
pub fn parse_statement(sql: &str) -> (r: SqlResult<SqlStatement>)
    ensures
        match parsed(sql@) {
            Ok(statement) => r matches Ok(found) && found@ == statement,
            Err(message) => r matches Err(e) && e.message@ == message,
        },
{
    let tokens = match lex(sql) {
        Ok(tokens) => tokens,
        Err(error) => {
            return Err(error);
        },
    };
    let mut parser = Parser::new(tokens);
    parser.parse_statement()
}

} // verus!
