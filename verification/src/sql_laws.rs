//! What holds of whole statements.
use vstd::prelude::*;

use crate::sql_ast::{ColumnName, ComparisonOp, PredicateV, SqlStatementV, TableName};
use crate::sql_grammar;
use crate::sql_grammar::{column_word, comparison_mark};
use crate::sql_lexer;
use crate::sql_lexer::{tokens_from, TokenV};
use crate::sql_parser;
use crate::sql_parser::at;
use crate::text;

verus! {

/// The end of the first text and the start of the second do not run together
/// into one token.
pub open spec fn separable(s: Seq<char>, t: Seq<char>) -> bool {
    ||| t.len() == 0
    ||| s.len() == 0
    ||| !sql_lexer::is_word_char(t[0]) && t[0] != '\''
    ||| !sql_lexer::is_word_char(s.last()) && s.last() != '\''
}

proof fn words_shift(p: Seq<char>, t: Seq<char>, j: int)
    requires
        0 <= j <= t.len(),
    ensures
        sql_lexer::word_end(p + t, p.len() + j) == p.len() + sql_lexer::word_end(t, j),
    decreases t.len() - j,
{
    let s = p + t;
    if j < t.len() {
        assert(s[p.len() + j] == t[j]);
        if sql_lexer::is_word_char(t[j]) {
            words_shift(p, t, j + 1);
        }
    }
}

proof fn literals_shift(p: Seq<char>, t: Seq<char>, j: int, read: Seq<char>)
    requires
        0 <= j <= t.len(),
    ensures
        sql_lexer::literal_rest(p + t, p.len() + j, read) == match sql_lexer::literal_rest(
            t,
            j,
            read,
        ) {
            Some((value, next)) => Some((value, p.len() + next)),
            None => None,
        },
    decreases t.len() - j,
{
    let s = p + t;
    if j < t.len() {
        assert(s[p.len() + j] == t[j]);
        if j + 1 < t.len() {
            assert(s[p.len() + j + 1] == t[j + 1]);
        }
        if t[j] != '\'' {
            literals_shift(p, t, j + 1, read.push(t[j]));
        } else if j + 1 < t.len() && t[j + 1] == '\'' {
            literals_shift(p, t, j + 2, read.push('\''));
        }
    }
}

/// What stands before a text changes none of its tokens.
pub proof fn tokens_shift(p: Seq<char>, t: Seq<char>, j: int)
    requires
        0 <= j <= t.len(),
    ensures
        tokens_from(p + t, p.len() + j) == tokens_from(t, j),
    decreases t.len() - j,
{
    let s = p + t;
    if j < t.len() {
        let i = p.len() + j;
        assert(s[i] == t[j]);
        if text::is_whitespace(t[j]) {
            tokens_shift(p, t, j + 1);
        } else {
            words_shift(p, t, j);
            literals_shift(p, t, j + 1, Seq::empty());
            if j + 1 < t.len() {
                assert(s[i + 1] == t[j + 1]);
            }
            sql_lexer::tokens_make_progress(t, j);
            sql_lexer::tokens_make_progress(s, i);
            if sql_lexer::is_word_char(t[j]) {
                let end = sql_lexer::word_end(t, j);
                assert(s.subrange(i, p.len() + end) =~= t.subrange(j, end));
            }
            if let Ok((token, next)) = sql_lexer::token_at(t, j) {
                assert(sql_lexer::token_at(s, i) == Ok::<(TokenV, int), Seq<char>>(
                    (token, p.len() + next),
                ));
                tokens_shift(p, t, next);
            } else {
                assert(sql_lexer::token_at(s, i) == Err::<(TokenV, int), Seq<char>>(
                    sql_lexer::token_at(t, j)->Err_0,
                ));
            }
        }
    }
}

proof fn words_end(s: Seq<char>, t: Seq<char>, i: int)
    requires
        0 <= i <= s.len(),
        t.len() == 0 || !sql_lexer::is_word_char(t[0]) || (s.len() > 0
            && !sql_lexer::is_word_char(s.last())),
        i < s.len() || t.len() == 0 || !sql_lexer::is_word_char(t[0]),
    ensures
        sql_lexer::word_end(s + t, i) == sql_lexer::word_end(s, i),
    decreases s.len() - i,
{
    let all = s + t;
    if i < s.len() {
        assert(all[i] == s[i]);
        if sql_lexer::is_word_char(s[i]) {
            words_end(s, t, i + 1);
        }
    }
}

proof fn literals_end(s: Seq<char>, t: Seq<char>, i: int, read: Seq<char>)
    requires
        0 <= i <= s.len(),
        t.len() == 0 || t[0] != '\'' || (s.len() > 0 && s.last() != '\''),
        sql_lexer::literal_rest(s, i, read) is Some,
    ensures
        sql_lexer::literal_rest(s + t, i, read) == sql_lexer::literal_rest(s, i, read),
    decreases s.len() - i,
{
    let all = s + t;
    if i < s.len() {
        assert(all[i] == s[i]);
        if i + 1 < s.len() {
            assert(all[i + 1] == s[i + 1]);
        } else if t.len() > 0 {
            assert(all[i + 1] == t[0]);
        }
        if s[i] != '\'' {
            literals_end(s, t, i + 1, read.push(s[i]));
        } else if i + 1 < s.len() && s[i + 1] == '\'' {
            literals_end(s, t, i + 2, read.push('\''));
        }
    }
}

/// The tokens of two texts one after the other.
proof fn tokens_go_on(s: Seq<char>, t: Seq<char>, i: int)
    requires
        0 <= i <= s.len(),
        separable(s, t),
        tokens_from(s, i) is Ok,
    ensures
        tokens_from(s + t, i) == match tokens_from(t, 0) {
            Ok(rest) => Ok(tokens_from(s, i)->Ok_0 + rest),
            Err(message) => Err::<Seq<TokenV>, Seq<char>>(message),
        },
    decreases s.len() - i,
{
    let all = s + t;
    if i == s.len() {
        tokens_shift(s, t, 0);
        if let Ok(rest) = tokens_from(t, 0) {
            assert(Seq::<TokenV>::empty() + rest =~= rest);
        }
    } else {
        assert(all[i] == s[i]);
        if text::is_whitespace(s[i]) {
            tokens_go_on(s, t, i + 1);
        } else {
            if i + 1 < s.len() {
                assert(all[i + 1] == s[i + 1]);
            }
            sql_lexer::tokens_make_progress(s, i);
            sql_lexer::tokens_make_progress(all, i);
            let (token, next) = sql_lexer::token_at(s, i)->Ok_0;
            if s[i] == '\'' {
                literals_end(s, t, i + 1, Seq::empty());
            } else if sql_lexer::is_word_char(s[i]) {
                words_end(s, t, i);
                let end = sql_lexer::word_end(s, i);
                assert(all.subrange(i, end) =~= s.subrange(i, end));
            }
            assert(sql_lexer::token_at(all, i) == sql_lexer::token_at(s, i));
            tokens_go_on(s, t, next);
            if let Ok(rest) = tokens_from(t, 0) {
                let own = tokens_from(s, next)->Ok_0;
                assert(seq![token] + (own + rest) =~= seq![token] + own + rest);
            }
        }
    }
}

/// Texts that do not run together have their tokens one after the other.
pub proof fn tokens_add_up(s: Seq<char>, t: Seq<char>, a: Seq<TokenV>, b: Seq<TokenV>)
    requires
        separable(s, t),
        tokens_from(s, 0) == Ok::<Seq<TokenV>, Seq<char>>(a),
        tokens_from(t, 0) == Ok::<Seq<TokenV>, Seq<char>>(b),
    ensures
        tokens_from(s + t, 0) == Ok::<Seq<TokenV>, Seq<char>>(a + b),
{
    tokens_go_on(s, t, 0);
}

proof fn runs_end(w: Seq<char>, i: int)
    requires
        0 <= i <= w.len(),
        forall|k: int| 0 <= k < w.len() ==> sql_lexer::is_word_char(#[trigger] w[k]),
    ensures
        sql_lexer::word_end(w, i) == w.len(),
    decreases w.len() - i,
{
    if i < w.len() {
        runs_end(w, i + 1);
    }
}

/// A word is one token.
pub proof fn words_are_tokens(w: Seq<char>)
    requires
        w.len() > 0,
        forall|k: int| 0 <= k < w.len() ==> sql_lexer::is_word_char(#[trigger] w[k]),
    ensures
        tokens_from(w, 0) == Ok::<Seq<TokenV>, Seq<char>>(seq![TokenV::Word(w)]),
{
    runs_end(w, 0);
    assert(sql_lexer::is_word_char(w[0]));
    assert(w.subrange(0, w.len() as int) =~= w);
    assert(sql_lexer::token_at(w, 0) == Ok::<(TokenV, int), Seq<char>>(
        (TokenV::Word(w), w.len() as int),
    ));
    assert(tokens_from(w, w.len() as int) == Ok::<Seq<TokenV>, Seq<char>>(Seq::empty()));
    assert(seq![TokenV::Word(w)] + Seq::<TokenV>::empty() =~= seq![TokenV::Word(w)]);
}

/// White space holds no token.
proof fn spaces_hold_nothing(s: Seq<char>, i: int)
    requires
        0 <= i <= s.len(),
    ensures
        tokens_from(s, i) == Ok::<Seq<TokenV>, Seq<char>>(Seq::empty()) <==> forall|k: int|
            i <= k < s.len() ==> text::is_whitespace(#[trigger] s[k]),
    decreases s.len() - i,
{
    if i < s.len() {
        if text::is_whitespace(s[i]) {
            spaces_hold_nothing(s, i + 1);
        } else {
            sql_lexer::tokens_make_progress(s, i);
            if let Ok((token, next)) = sql_lexer::token_at(s, i) {
                if let Ok(rest) = tokens_from(s, next) {
                    assert((seq![token] + rest).len() > 0);
                }
            }
        }
    }
}

/// The last character that is no white space is a semicolon.
pub open spec fn ends_with_semicolon(s: Seq<char>) -> bool {
    exists|j: int|
        0 <= j < s.len() && #[trigger] s[j] == ';' && forall|k: int|
            j < k < s.len() ==> text::is_whitespace(#[trigger] s[k])
}

/// A last token that is a semicolon is the last character.
proof fn last_semicolons(s: Seq<char>, i: int)
    requires
        0 <= i <= s.len(),
        tokens_from(s, i) matches Ok(ts) && ts.len() > 0 && ts.last() == TokenV::Semicolon,
    ensures
        ends_with_semicolon(s),
    decreases s.len() - i,
{
    if i < s.len() {
        if text::is_whitespace(s[i]) {
            last_semicolons(s, i + 1);
        } else {
            sql_lexer::tokens_make_progress(s, i);
            let (token, next) = sql_lexer::token_at(s, i)->Ok_0;
            let rest = tokens_from(s, next)->Ok_0;
            if rest.len() > 0 {
                assert((seq![token] + rest).last() == rest.last());
                last_semicolons(s, next);
            } else {
                assert(rest =~= Seq::empty());
                assert((seq![token] + rest).last() == token);
                spaces_hold_nothing(s, next);
                assert(s[i] == ';');
            }
        }
    }
}

/// A semicolon is one token.
proof fn semicolons_are_tokens()
    ensures
        tokens_from(seq![';'], 0) == Ok::<Seq<TokenV>, Seq<char>>(seq![TokenV::Semicolon]),
{
    let s = seq![';'];
    assert(sql_lexer::token_at(s, 0) == Ok::<(TokenV, int), Seq<char>>((TokenV::Semicolon, 1)));
    assert(tokens_from(s, 1) == Ok::<Seq<TokenV>, Seq<char>>(Seq::empty()));
    assert(seq![TokenV::Semicolon] + Seq::<TokenV>::empty() =~= seq![TokenV::Semicolon]);
}

/// What may follow a statement without going on with it: nothing, or a token
/// that is neither a comma nor the word that starts a condition.
pub open spec fn does_not_go_on(us: Seq<TokenV>) -> bool {
    us.len() == 0 || (us[0] != TokenV::Comma && !sql_parser::is_keyword(Some(us[0]), "WHERE"@))
}

proof fn tokens_stay(ts: Seq<TokenV>, us: Seq<TokenV>, p: int)
    ensures
        0 <= p < ts.len() ==> at(ts + us, p) == at(ts, p),
        p == ts.len() && us.len() > 0 ==> at(ts + us, p) == Some(us[0]),
        p == ts.len() && us.len() == 0 ==> at(ts + us, p) is None,
{
}

proof fn columns_stay(ts: Seq<TokenV>, us: Seq<TokenV>, p: int)
    requires
        0 <= p,
        does_not_go_on(us),
        sql_parser::columns_at(ts, p) is Ok,
    ensures
        sql_parser::columns_at(ts + us, p) == sql_parser::columns_at(ts, p),
        p < sql_parser::columns_at(ts, p)->Ok_0.1 <= ts.len(),
    decreases ts.len() - p,
{
    tokens_stay(ts, us, p);
    let next = p + 1;
    tokens_stay(ts, us, next);
    if at(ts, next) == Some(TokenV::Comma) {
        columns_stay(ts, us, next + 1);
    }
}

proof fn literals_stay(ts: Seq<TokenV>, us: Seq<TokenV>, p: int)
    requires
        0 <= p,
        does_not_go_on(us),
        sql_parser::literals_at(ts, p) is Ok,
    ensures
        sql_parser::literals_at(ts + us, p) == sql_parser::literals_at(ts, p),
        p < sql_parser::literals_at(ts, p)->Ok_0.1 <= ts.len(),
    decreases ts.len() - p,
{
    tokens_stay(ts, us, p);
    let next = p + 1;
    tokens_stay(ts, us, next);
    if at(ts, next) == Some(TokenV::Comma) {
        literals_stay(ts, us, next + 1);
    }
}

proof fn predicates_stay(ts: Seq<TokenV>, us: Seq<TokenV>, p: int)
    requires
        0 <= p,
        sql_parser::predicate_at(ts, p) is Ok,
    ensures
        sql_parser::predicate_at(ts + us, p) == sql_parser::predicate_at(ts, p),
        sql_parser::predicate_at(ts, p)->Ok_0.1 <= ts.len(),
{
    tokens_stay(ts, us, p);
    tokens_stay(ts, us, p + 1);
    tokens_stay(ts, us, p + 2);
}

proof fn inserts_stay(ts: Seq<TokenV>, us: Seq<TokenV>)
    requires
        does_not_go_on(us),
        sql_parser::insert_at(ts, 0) is Ok,
    ensures
        sql_parser::insert_at(ts + us, 0) == sql_parser::insert_at(ts, 0),
        sql_parser::insert_at(ts, 0)->Ok_0.1 <= ts.len(),
{
    tokens_stay(ts, us, 0);
    tokens_stay(ts, us, 1);
    tokens_stay(ts, us, 2);
    tokens_stay(ts, us, 3);
    if at(ts, 3) == Some(TokenV::LParen) {
        columns_stay(ts, us, 4);
        let q = sql_parser::columns_at(ts, 4)->Ok_0.1;
        tokens_stay(ts, us, q);
    }
    let q = sql_parser::insert_columns_at(ts, 3)->Ok_0.1;
    tokens_stay(ts, us, q);
    tokens_stay(ts, us, q + 1);
    literals_stay(ts, us, q + 2);
    let end = sql_parser::literals_at(ts, q + 2)->Ok_0.1;
    tokens_stay(ts, us, end);
}

proof fn updates_stay(ts: Seq<TokenV>, us: Seq<TokenV>)
    requires
        sql_parser::update_at(ts, 0) is Ok,
    ensures
        sql_parser::update_at(ts + us, 0) == sql_parser::update_at(ts, 0),
        sql_parser::update_at(ts, 0)->Ok_0.1 <= ts.len(),
{
    tokens_stay(ts, us, 0);
    tokens_stay(ts, us, 1);
    tokens_stay(ts, us, 2);
    tokens_stay(ts, us, 3);
    tokens_stay(ts, us, 4);
    tokens_stay(ts, us, 5);
    tokens_stay(ts, us, 6);
    predicates_stay(ts, us, 7);
}

proof fn selects_stay(ts: Seq<TokenV>, us: Seq<TokenV>)
    requires
        does_not_go_on(us),
        sql_parser::select_at(ts, 0) is Ok,
    ensures
        sql_parser::select_at(ts + us, 0) == sql_parser::select_at(ts, 0),
        sql_parser::select_at(ts, 0)->Ok_0.1 <= ts.len(),
{
    tokens_stay(ts, us, 0);
    tokens_stay(ts, us, 1);
    if at(ts, 1) != Some(TokenV::Star) {
        columns_stay(ts, us, 1);
    }
    let q = sql_parser::projection_at(ts, 1)->Ok_0.1;
    tokens_stay(ts, us, q);
    tokens_stay(ts, us, q + 1);
    tokens_stay(ts, us, q + 2);
    if sql_parser::is_keyword(at(ts, q + 2), "WHERE"@) {
        predicates_stay(ts, us, q + 3);
    }
}

/// What follows a statement without going on with it changes nothing of it.
proof fn bodies_stay(ts: Seq<TokenV>, us: Seq<TokenV>)
    requires
        does_not_go_on(us),
        sql_parser::body_of(ts) is Ok,
    ensures
        sql_parser::body_of(ts + us) == sql_parser::body_of(ts),
        sql_parser::body_of(ts)->Ok_0.1 <= ts.len(),
{
    tokens_stay(ts, us, 0);
    if sql_parser::is_keyword(at(ts, 0), "insert"@) {
        inserts_stay(ts, us);
    } else if sql_parser::is_keyword(at(ts, 0), "delete"@) {
        tokens_stay(ts, us, 1);
        tokens_stay(ts, us, 2);
        tokens_stay(ts, us, 3);
        predicates_stay(ts, us, 4);
    } else if sql_parser::is_keyword(at(ts, 0), "update"@) {
        updates_stay(ts, us);
    } else if sql_parser::is_keyword(at(ts, 0), "select"@) {
        selects_stay(ts, us);
    }
}

/// A statement without a closing semicolon ends with its last token.
proof fn open_statements_end(s: Seq<char>)
    requires
        sql_parser::parsed(s) is Ok,
        !ends_with_semicolon(s),
    ensures
        ({
            let ts = tokens_from(s, 0)->Ok_0;
            &&& tokens_from(s, 0) is Ok
            &&& sql_parser::body_of(ts) == Ok::<(SqlStatementV, int), Seq<char>>(
                (sql_parser::parsed(s)->Ok_0, ts.len() as int),
            )
        }),
{
    let ts = tokens_from(s, 0)->Ok_0;
    bodies_stay(ts, Seq::empty());
    let q = sql_parser::body_of(ts)->Ok_0.1;
    if at(ts, q) == Some(TokenV::Semicolon) {
        assert(q == ts.len() - 1);
        last_semicolons(s, 0);
    }
}

/// One closing semicolon changes nothing of a statement that has none, and only
/// white space may follow it.
pub proof fn one_semicolon_closes(s: Seq<char>, t: Seq<char>)
    requires
        sql_parser::parsed(s) is Ok,
        !ends_with_semicolon(s),
    ensures
        if forall|k: int| 0 <= k < t.len() ==> text::is_whitespace(#[trigger] t[k]) {
            sql_parser::parsed(s + seq![';'] + t) == sql_parser::parsed(s)
        } else {
            sql_parser::parsed(s + seq![';'] + t) is Err
        },
{
    open_statements_end(s);
    semicolons_are_tokens();
    let ts = tokens_from(s, 0)->Ok_0;
    let closed = ts + seq![TokenV::Semicolon];
    tokens_add_up(s, seq![';'], ts, seq![TokenV::Semicolon]);
    tokens_go_on(s + seq![';'], t, 0);
    spaces_hold_nothing(t, 0);
    if let Ok(us) = tokens_from(t, 0) {
        let more = seq![TokenV::Semicolon] + us;
        assert(closed + us =~= ts + more);
        bodies_stay(ts, more);
        assert((ts + more)[ts.len() as int] == TokenV::Semicolon);
        if us.len() == 0 {
            assert(us =~= Seq::empty());
        }
    }
}

/// A second semicolon is refused.
pub proof fn two_semicolons_are_refused(s: Seq<char>)
    requires
        sql_parser::parsed(s) is Ok,
        !ends_with_semicolon(s),
    ensures
        sql_parser::parsed(s + seq![';'] + seq![';']) is Err,
{
    let more = seq![';'];
    assert(!text::is_whitespace(more[0]));
    one_semicolon_closes(s, more);
}

/// A word after a statement is refused, unless it starts a condition.
pub proof fn more_words_are_refused(s: Seq<char>, w: Seq<char>)
    requires
        sql_parser::parsed(s) is Ok,
        !ends_with_semicolon(s),
        w.len() > 0,
        forall|k: int| 0 <= k < w.len() ==> sql_lexer::is_word_char(#[trigger] w[k]),
        !text::same_ignoring_case(w, "WHERE"@),
    ensures
        sql_parser::parsed(s + seq![' '] + w) is Err,
{
    open_statements_end(s);
    let ts = tokens_from(s, 0)->Ok_0;
    let gap = seq![' '];
    spaces_hold_nothing(gap, 0);
    tokens_add_up(s, gap, ts, Seq::empty());
    assert(ts + Seq::<TokenV>::empty() =~= ts);
    words_are_tokens(w);
    tokens_add_up(s + gap, w, ts, seq![TokenV::Word(w)]);
    bodies_stay(ts, seq![TokenV::Word(w)]);
}

/// An INSERT of a key and a value as quoted literals.
pub open spec fn insert_text(key: Seq<char>, value: Seq<char>) -> Seq<char> {
    "INSERT INTO kv (key, value) VALUES ("@ + sql_lexer::quoted(key) + ", "@ + sql_lexer::quoted(
        value,
    ) + ")"@
}

/// The tokens of such a statement.
pub open spec fn insert_tokens(key: Seq<char>, value: Seq<char>) -> Seq<TokenV> {
    seq![
        TokenV::Word("INSERT"@),
        TokenV::Word("INTO"@),
        TokenV::Word("kv"@),
        TokenV::LParen,
        TokenV::Word("key"@),
        TokenV::Comma,
        TokenV::Word("value"@),
        TokenV::RParen,
        TokenV::Word("VALUES"@),
        TokenV::LParen,
        TokenV::StringLiteral(key),
        TokenV::Comma,
        TokenV::StringLiteral(value),
        TokenV::RParen,
    ]
}

/// A character that is a token of its own.
proof fn marks_are_tokens(c: char, token: TokenV)
    requires
        c == ',' && token == TokenV::Comma || c == '(' && token == TokenV::LParen || c == ')'
            && token == TokenV::RParen || c == '=' && token == TokenV::Eq || c == '*' && token
            == TokenV::Star,
    ensures
        tokens_from(seq![c], 0) == Ok::<Seq<TokenV>, Seq<char>>(seq![token]),
{
    let s = seq![c];
    assert(sql_lexer::token_at(s, 0) == Ok::<(TokenV, int), Seq<char>>((token, 1)));
    assert(tokens_from(s, 1) == Ok::<Seq<TokenV>, Seq<char>>(Seq::empty()));
    assert(seq![token] + Seq::<TokenV>::empty() =~= seq![token]);
}

/// A text with a mark behind it.
proof fn mark_follows(s: Seq<char>, ts: Seq<TokenV>, c: char, token: TokenV)
    requires
        tokens_from(s, 0) == Ok::<Seq<TokenV>, Seq<char>>(ts),
        c == ',' && token == TokenV::Comma || c == '(' && token == TokenV::LParen || c == ')'
            && token == TokenV::RParen || c == '=' && token == TokenV::Eq || c == '*' && token
            == TokenV::Star,
    ensures
        tokens_from(s + seq![c], 0) == Ok::<Seq<TokenV>, Seq<char>>(ts.push(token)),
{
    marks_are_tokens(c, token);
    tokens_add_up(s, seq![c], ts, seq![token]);
    assert(ts + seq![token] =~= ts.push(token));
}

/// A text with a space behind it.
proof fn space_follows(s: Seq<char>, ts: Seq<TokenV>)
    requires
        tokens_from(s, 0) == Ok::<Seq<TokenV>, Seq<char>>(ts),
    ensures
        tokens_from(s + seq![' '], 0) == Ok::<Seq<TokenV>, Seq<char>>(ts),
{
    spaces_hold_nothing(seq![' '], 0);
    tokens_add_up(s, seq![' '], ts, Seq::empty());
    assert(ts + Seq::<TokenV>::empty() =~= ts);
}

/// A text that ends in a space or a mark with a word behind it.
proof fn word_follows(s: Seq<char>, ts: Seq<TokenV>, w: Seq<char>)
    requires
        tokens_from(s, 0) == Ok::<Seq<TokenV>, Seq<char>>(ts),
        s.len() == 0 || s.last() == ' ' || s.last() == '(',
        w.len() > 0,
        forall|k: int| 0 <= k < w.len() ==> sql_lexer::is_word_char(#[trigger] w[k]),
    ensures
        tokens_from(s + w, 0) == Ok::<Seq<TokenV>, Seq<char>>(ts.push(TokenV::Word(w))),
{
    words_are_tokens(w);
    tokens_add_up(s, w, ts, seq![TokenV::Word(w)]);
    assert(ts + seq![TokenV::Word(w)] =~= ts.push(TokenV::Word(w)));
}

/// A text that ends in a space or a mark with a quoted literal behind it.
proof fn literal_follows(s: Seq<char>, ts: Seq<TokenV>, t: Seq<char>)
    requires
        tokens_from(s, 0) == Ok::<Seq<TokenV>, Seq<char>>(ts),
        s.last() == ' ' || s.last() == '(',
    ensures
        tokens_from(s + sql_lexer::quoted(t), 0) == Ok::<Seq<TokenV>, Seq<char>>(
            ts.push(TokenV::StringLiteral(t)),
        ),
{
    sql_lexer::quoted_literals_read_back(t);
    tokens_add_up(s, sql_lexer::quoted(t), ts, seq![TokenV::StringLiteral(t)]);
    assert(ts + seq![TokenV::StringLiteral(t)] =~= ts.push(TokenV::StringLiteral(t)));
}

/// The tokens of the statement up to its first literal.
proof fn insert_heads()
    ensures
        tokens_from("INSERT INTO kv (key, value) VALUES ("@, 0) == Ok::<Seq<TokenV>, Seq<char>>(
            insert_tokens(Seq::empty(), Seq::empty()).take(10),
        ),
        "INSERT INTO kv (key, value) VALUES ("@.last() == '(',
{
    reveal_strlit("INSERT INTO kv (key, value) VALUES (");
    reveal_strlit("INSERT");
    reveal_strlit("INTO");
    reveal_strlit("kv");
    reveal_strlit("key");
    reveal_strlit("value");
    reveal_strlit("VALUES");
    let s0 = Seq::<char>::empty();
    let t0 = Seq::<TokenV>::empty();
    word_follows(s0, t0, "INSERT"@);
    let s1 = s0 + "INSERT"@;
    let t1 = t0.push(TokenV::Word("INSERT"@));
    space_follows(s1, t1);
    let s2 = s1 + seq![' '];
    word_follows(s2, t1, "INTO"@);
    let s3 = s2 + "INTO"@;
    let t3 = t1.push(TokenV::Word("INTO"@));
    space_follows(s3, t3);
    let s4 = s3 + seq![' '];
    word_follows(s4, t3, "kv"@);
    let s5 = s4 + "kv"@;
    let t5 = t3.push(TokenV::Word("kv"@));
    space_follows(s5, t5);
    let s6 = s5 + seq![' '];
    mark_follows(s6, t5, '(', TokenV::LParen);
    let s7 = s6 + seq!['('];
    let t7 = t5.push(TokenV::LParen);
    word_follows(s7, t7, "key"@);
    let s8 = s7 + "key"@;
    let t8 = t7.push(TokenV::Word("key"@));
    mark_follows(s8, t8, ',', TokenV::Comma);
    let s9 = s8 + seq![','];
    let t9 = t8.push(TokenV::Comma);
    space_follows(s9, t9);
    let s10 = s9 + seq![' '];
    word_follows(s10, t9, "value"@);
    let s11 = s10 + "value"@;
    let t11 = t9.push(TokenV::Word("value"@));
    mark_follows(s11, t11, ')', TokenV::RParen);
    let s12 = s11 + seq![')'];
    let t12 = t11.push(TokenV::RParen);
    space_follows(s12, t12);
    let s13 = s12 + seq![' '];
    word_follows(s13, t12, "VALUES"@);
    let s14 = s13 + "VALUES"@;
    let t14 = t12.push(TokenV::Word("VALUES"@));
    space_follows(s14, t14);
    let s15 = s14 + seq![' '];
    mark_follows(s15, t14, '(', TokenV::LParen);
    let s16 = s15 + seq!['('];
    let t16 = t14.push(TokenV::LParen);
    assert(s16 =~= "INSERT INTO kv (key, value) VALUES ("@);
    assert(t16 =~= insert_tokens(Seq::empty(), Seq::empty()).take(10));
}

proof fn inserts_lex(key: Seq<char>, value: Seq<char>)
    ensures
        tokens_from(insert_text(key, value), 0) == Ok::<Seq<TokenV>, Seq<char>>(
            insert_tokens(key, value),
        ),
{
    insert_heads();
    reveal_strlit(", ");
    reveal_strlit(")");
    let head = "INSERT INTO kv (key, value) VALUES ("@;
    let t0 = insert_tokens(Seq::empty(), Seq::empty()).take(10);
    assert(t0 =~= insert_tokens(key, value).take(10));
    literal_follows(head, t0, key);
    let s1 = head + sql_lexer::quoted(key);
    let t1 = t0.push(TokenV::StringLiteral(key));
    mark_follows(s1, t1, ',', TokenV::Comma);
    let s2 = s1 + seq![','];
    let t2 = t1.push(TokenV::Comma);
    space_follows(s2, t2);
    let s3 = s2 + seq![' '];
    literal_follows(s3, t2, value);
    let s4 = s3 + sql_lexer::quoted(value);
    let t4 = t2.push(TokenV::StringLiteral(value));
    mark_follows(s4, t4, ')', TokenV::RParen);
    let s5 = s4 + seq![')'];
    assert(s3 =~= s1 + ", "@);
    assert(s5 =~= insert_text(key, value));
    assert(t4.push(TokenV::RParen) =~= insert_tokens(key, value));
}

/// The two columns of the statement.
proof fn insert_columns_parse(ts: Seq<TokenV>)
    requires
        ts.len() == 14,
        ts[3] == TokenV::LParen,
        ts[4] == TokenV::Word("key"@),
        ts[5] == TokenV::Comma,
        ts[6] == TokenV::Word("value"@),
        ts[7] == TokenV::RParen,
    ensures
        sql_parser::insert_columns_at(ts, 3) == Ok::<(Seq<ColumnName>, int), Seq<char>>(
            (seq![ColumnName::Key, ColumnName::Value], 8),
        ),
{
    reveal_strlit("key");
    reveal_strlit("value");
    assert(!text::same_ignoring_case("value"@, "key"@));
    assert(sql_parser::columns_at(ts, 6) == Ok::<(Seq<ColumnName>, int), Seq<char>>(
        (seq![ColumnName::Value], 7),
    ));
    assert(seq![ColumnName::Key] + seq![ColumnName::Value] =~= seq![
        ColumnName::Key,
        ColumnName::Value,
    ]);
    assert(sql_parser::columns_at(ts, 4) == Ok::<(Seq<ColumnName>, int), Seq<char>>(
        (seq![ColumnName::Key, ColumnName::Value], 7),
    ));
}

/// The two values of the statement.
proof fn insert_values_parse(ts: Seq<TokenV>, key: Seq<char>, value: Seq<char>)
    requires
        ts.len() == 14,
        ts[8] == TokenV::Word("VALUES"@),
        ts[9] == TokenV::LParen,
        ts[10] == TokenV::StringLiteral(key),
        ts[11] == TokenV::Comma,
        ts[12] == TokenV::StringLiteral(value),
        ts[13] == TokenV::RParen,
    ensures
        sql_parser::insert_values_at(ts, 8) == Ok::<(Seq<Seq<char>>, int), Seq<char>>(
            (seq![key, value], 14),
        ),
{
    assert(sql_parser::literals_at(ts, 12) == Ok::<(Seq<Seq<char>>, int), Seq<char>>(
        (seq![value], 13),
    ));
    assert(seq![key] + seq![value] =~= seq![key, value]);
    assert(sql_parser::literals_at(ts, 10) == Ok::<(Seq<Seq<char>>, int), Seq<char>>(
        (seq![key, value], 13),
    ));
}

/// Any key and any value can be inserted: quoted with every quote doubled, they
/// come out of the statement as they were.
pub proof fn inserted_literals_come_back(key: Seq<char>, value: Seq<char>)
    ensures
        sql_parser::parsed(insert_text(key, value)) == Ok::<SqlStatementV, Seq<char>>(
            SqlStatementV::Insert { table: TableName::Kv, key, value },
        ),
{
    inserts_lex(key, value);
    let ts = insert_tokens(key, value);
    insert_columns_parse(ts);
    insert_values_parse(ts, key, value);
    let columns = seq![ColumnName::Key, ColumnName::Value];
    let values = seq![key, value];
    assert(sql_parser::assigned(columns, values, 2, Some(key), Some(value)) == Ok::<
        (Seq<char>, Seq<char>),
        Seq<char>,
    >((key, value)));
    assert(sql_parser::assigned(columns, values, 1, Some(key), None) == Ok::<
        (Seq<char>, Seq<char>),
        Seq<char>,
    >((key, value)));
    assert(sql_parser::assigned(columns, values, 0, None, None) == Ok::<
        (Seq<char>, Seq<char>),
        Seq<char>,
    >((key, value)));
    reveal_strlit("INSERT");
    reveal_strlit("insert");
    assert(text::same_ignoring_case("INSERT"@, "insert"@));
    assert(sql_parser::insert_at(ts, 0) == Ok::<(SqlStatementV, int), Seq<char>>(
        (SqlStatementV::Insert { table: TableName::Kv, key, value }, 14),
    ));
}

/// A condition in a statement: a column, a comparison and a quoted literal.
pub open spec fn condition_text(column: ColumnName, op: ComparisonOp, t: Seq<char>) -> Seq<char> {
    (match column {
        ColumnName::Key => "key"@,
        ColumnName::Value => "value"@,
    }) + (match op {
        ComparisonOp::Eq => " = "@,
        ComparisonOp::NotEq => " != "@,
    }) + sql_lexer::quoted(t)
}

/// Two signs that are one token.
proof fn unequals_are_tokens()
    ensures
        tokens_from(seq!['!', '='], 0) == Ok::<Seq<TokenV>, Seq<char>>(seq![TokenV::NotEq]),
{
    let s = seq!['!', '='];
    assert(sql_lexer::token_at(s, 0) == Ok::<(TokenV, int), Seq<char>>((TokenV::NotEq, 2)));
    assert(tokens_from(s, 2) == Ok::<Seq<TokenV>, Seq<char>>(Seq::empty()));
    assert(seq![TokenV::NotEq] + Seq::<TokenV>::empty() =~= seq![TokenV::NotEq]);
}

/// A text that ends in a space with a condition behind it.
proof fn condition_follows(
    s: Seq<char>,
    ts: Seq<TokenV>,
    column: ColumnName,
    op: ComparisonOp,
    t: Seq<char>,
)
    requires
        tokens_from(s, 0) == Ok::<Seq<TokenV>, Seq<char>>(ts),
        s.last() == ' ',
    ensures
        tokens_from(s + condition_text(column, op, t), 0) == Ok::<Seq<TokenV>, Seq<char>>(
            ts + seq![column_word(column), comparison_mark(op), TokenV::StringLiteral(t)],
        ),
{
    reveal_strlit("key");
    reveal_strlit("value");
    reveal_strlit(" = ");
    reveal_strlit(" != ");
    let name = match column {
        ColumnName::Key => "key"@,
        ColumnName::Value => "value"@,
    };
    word_follows(s, ts, name);
    let s1 = s + name;
    let t1 = ts.push(TokenV::Word(name));
    space_follows(s1, t1);
    let s2 = s1 + seq![' '];
    let sign = match op {
        ComparisonOp::Eq => seq!['='],
        ComparisonOp::NotEq => seq!['!', '='],
    };
    match op {
        ComparisonOp::Eq => marks_are_tokens('=', TokenV::Eq),
        ComparisonOp::NotEq => unequals_are_tokens(),
    }
    tokens_add_up(s2, sign, t1, seq![comparison_mark(op)]);
    let s3 = s2 + sign;
    let t3 = t1 + seq![comparison_mark(op)];
    space_follows(s3, t3);
    let s4 = s3 + seq![' '];
    literal_follows(s4, t3, t);
    assert(s4 + sql_lexer::quoted(t) =~= s + condition_text(column, op, t));
    assert(t3.push(TokenV::StringLiteral(t)) =~= ts + seq![
        column_word(column),
        comparison_mark(op),
        TokenV::StringLiteral(t),
    ]);
}

/// Tokens that say a statement are read as it.
proof fn said_texts_parse(s: Seq<char>, ts: Seq<TokenV>, statement: SqlStatementV)
    requires
        tokens_from(s, 0) == Ok::<Seq<TokenV>, Seq<char>>(ts),
        sql_grammar::say(ts, statement),
    ensures
        sql_parser::parsed(s) == Ok::<SqlStatementV, Seq<char>>(statement),
{
    assert(sql_grammar::alike(ts, sql_grammar::closed_by(ts, false)));
    sql_grammar::statements_are_read_as_said(ts, statement);
}

proof fn delete_heads()
    ensures
        tokens_from("DELETE FROM kv WHERE "@, 0) == Ok::<Seq<TokenV>, Seq<char>>(
            seq![TokenV::Word("DELETE"@), TokenV::Word("FROM"@), TokenV::Word("kv"@), TokenV::Word("WHERE"@)],
        ),
        "DELETE FROM kv WHERE "@.last() == ' ',
{
    reveal_strlit("DELETE FROM kv WHERE ");
    reveal_strlit("DELETE");
    reveal_strlit("FROM");
    reveal_strlit("kv");
    reveal_strlit("WHERE");
    let s0 = Seq::<char>::empty();
    let t0 = Seq::<TokenV>::empty();
    word_follows(s0, t0, "DELETE"@);
    let s1 = s0 + "DELETE"@;
    let t1 = t0.push(TokenV::Word("DELETE"@));
    space_follows(s1, t1);
    let s2 = s1 + seq![' '];
    word_follows(s2, t1, "FROM"@);
    let s3 = s2 + "FROM"@;
    let t2 = t1.push(TokenV::Word("FROM"@));
    space_follows(s3, t2);
    let s4 = s3 + seq![' '];
    word_follows(s4, t2, "kv"@);
    let s5 = s4 + "kv"@;
    let t3 = t2.push(TokenV::Word("kv"@));
    space_follows(s5, t3);
    let s6 = s5 + seq![' '];
    word_follows(s6, t3, "WHERE"@);
    let s7 = s6 + "WHERE"@;
    let t4 = t3.push(TokenV::Word("WHERE"@));
    space_follows(s7, t4);
    let s8 = s7 + seq![' '];
    assert(s8 =~= "DELETE FROM kv WHERE "@);
    assert(t4 =~= seq![TokenV::Word("DELETE"@), TokenV::Word("FROM"@), TokenV::Word("kv"@), TokenV::Word("WHERE"@)]);
}

proof fn deletes_lex(column: ColumnName, op: ComparisonOp, t: Seq<char>)
    ensures
        tokens_from("DELETE FROM kv WHERE "@ + condition_text(column, op, t), 0) == Ok::<
            Seq<TokenV>,
            Seq<char>,
        >(sql_grammar::delete_tokens(PredicateV { column, op, value: t })),
{
    delete_heads();
    let head = "DELETE FROM kv WHERE "@;
    let words = tokens_from(head, 0)->Ok_0;
    condition_follows(head, words, column, op, t);
    let ts = words + seq![column_word(column), comparison_mark(op), TokenV::StringLiteral(t)];
    assert(ts =~= sql_grammar::delete_tokens(PredicateV { column, op, value: t }));
}

/// A DELETE has the condition that its text gives: the column, the comparison
/// and the literal, whatever the literal is.
#[verifier::spinoff_prover]
#[verifier::rlimit(100)]
pub proof fn deletes_have_their_condition(column: ColumnName, op: ComparisonOp, t: Seq<char>)
    ensures
        sql_parser::parsed("DELETE FROM kv WHERE "@ + condition_text(column, op, t)) == Ok::<
            SqlStatementV,
            Seq<char>,
        >(
            SqlStatementV::Delete {
                table: TableName::Kv,
                predicate: PredicateV { column, op, value: t },
            },
        ),
{
    let predicate = PredicateV { column, op, value: t };
    deletes_lex(column, op, t);
    said_texts_parse(
        "DELETE FROM kv WHERE "@ + condition_text(column, op, t),
        sql_grammar::delete_tokens(predicate),
        SqlStatementV::Delete { table: TableName::Kv, predicate },
    );
}

proof fn update_heads()
    ensures
        tokens_from("UPDATE kv SET value = "@, 0) == Ok::<Seq<TokenV>, Seq<char>>(
            seq![TokenV::Word("UPDATE"@), TokenV::Word("kv"@), TokenV::Word("SET"@), TokenV::Word("value"@), TokenV::Eq],
        ),
        "UPDATE kv SET value = "@.last() == ' ',
{
    reveal_strlit("UPDATE kv SET value = ");
    reveal_strlit("UPDATE");
    reveal_strlit("kv");
    reveal_strlit("SET");
    reveal_strlit("value");
    let s0 = Seq::<char>::empty();
    let t0 = Seq::<TokenV>::empty();
    word_follows(s0, t0, "UPDATE"@);
    let s1 = s0 + "UPDATE"@;
    let t1 = t0.push(TokenV::Word("UPDATE"@));
    space_follows(s1, t1);
    let s2 = s1 + seq![' '];
    word_follows(s2, t1, "kv"@);
    let s3 = s2 + "kv"@;
    let t2 = t1.push(TokenV::Word("kv"@));
    space_follows(s3, t2);
    let s4 = s3 + seq![' '];
    word_follows(s4, t2, "SET"@);
    let s5 = s4 + "SET"@;
    let t3 = t2.push(TokenV::Word("SET"@));
    space_follows(s5, t3);
    let s6 = s5 + seq![' '];
    word_follows(s6, t3, "value"@);
    let s7 = s6 + "value"@;
    let t4 = t3.push(TokenV::Word("value"@));
    space_follows(s7, t4);
    let s8 = s7 + seq![' '];
    mark_follows(s8, t4, '=', TokenV::Eq);
    let s9 = s8 + seq!['='];
    let t5 = t4.push(TokenV::Eq);
    space_follows(s9, t5);
    let s10 = s9 + seq![' '];
    assert(s10 =~= "UPDATE kv SET value = "@);
    assert(t5 =~= seq![TokenV::Word("UPDATE"@), TokenV::Word("kv"@), TokenV::Word("SET"@), TokenV::Word("value"@), TokenV::Eq]);
}

/// An UPDATE of the value of the rows that meet a condition.
pub open spec fn update_text(
    value: Seq<char>,
    column: ColumnName,
    op: ComparisonOp,
    t: Seq<char>,
) -> Seq<char> {
    "UPDATE kv SET value = "@ + sql_lexer::quoted(value) + " WHERE "@ + condition_text(
        column,
        op,
        t,
    )
}

proof fn updates_lex(value: Seq<char>, column: ColumnName, op: ComparisonOp, t: Seq<char>)
    ensures
        tokens_from(update_text(value, column, op, t), 0) == Ok::<Seq<TokenV>, Seq<char>>(
            sql_grammar::update_tokens(value, PredicateV { column, op, value: t }),
        ),
{
    update_heads();
    let head = "UPDATE kv SET value = "@;
    let words = tokens_from(head, 0)->Ok_0;
    literal_follows(head, words, value);
    let s1 = head + sql_lexer::quoted(value);
    let t1 = words.push(TokenV::StringLiteral(value));
    where_follows(s1, t1);
    let s4 = s1 + " WHERE "@;
    let t3 = t1.push(TokenV::Word("WHERE"@));
    condition_follows(s4, t3, column, op, t);
    let ts = t3 + seq![column_word(column), comparison_mark(op), TokenV::StringLiteral(t)];
    assert(ts =~= sql_grammar::update_tokens(value, PredicateV { column, op, value: t }));
}

/// A text with WHERE behind it.
proof fn where_follows(s: Seq<char>, ts: Seq<TokenV>)
    requires
        tokens_from(s, 0) == Ok::<Seq<TokenV>, Seq<char>>(ts),
    ensures
        tokens_from(s + " WHERE "@, 0) == Ok::<Seq<TokenV>, Seq<char>>(
            ts.push(TokenV::Word("WHERE"@)),
        ),
        (s + " WHERE "@).last() == ' ',
{
    reveal_strlit(" WHERE ");
    reveal_strlit("WHERE");
    space_follows(s, ts);
    let s2 = s + seq![' '];
    word_follows(s2, ts, "WHERE"@);
    let s3 = s2 + "WHERE"@;
    let t3 = ts.push(TokenV::Word("WHERE"@));
    space_follows(s3, t3);
    assert(s3 + seq![' '] =~= s + " WHERE "@);
}

/// An UPDATE has the new value and the condition that its text gives.
#[verifier::spinoff_prover]
#[verifier::rlimit(100)]
pub proof fn updates_have_their_value_and_condition(
    value: Seq<char>,
    column: ColumnName,
    op: ComparisonOp,
    t: Seq<char>,
)
    ensures
        sql_parser::parsed(update_text(value, column, op, t)) == Ok::<SqlStatementV, Seq<char>>(
            SqlStatementV::Update {
                table: TableName::Kv,
                value,
                predicate: PredicateV { column, op, value: t },
            },
        ),
{
    let predicate = PredicateV { column, op, value: t };
    updates_lex(value, column, op, t);
    said_texts_parse(
        update_text(value, column, op, t),
        sql_grammar::update_tokens(value, predicate),
        SqlStatementV::Update { table: TableName::Kv, value, predicate },
    );
}

/// What a SELECT can ask for with at most one comma: both columns in either
/// order, with a star, or one of them.
pub open spec fn asked_text(star: bool, columns: Seq<ColumnName>) -> Seq<char> {
    if star {
        "*"@
    } else if columns == seq![ColumnName::Key] {
        "key"@
    } else if columns == seq![ColumnName::Value] {
        "value"@
    } else if columns == seq![ColumnName::Key, ColumnName::Value] {
        "key, value"@
    } else {
        "value, key"@
    }
}

/// The text between SELECT and FROM.
proof fn asked_follows(star: bool, columns: Seq<ColumnName>) -> (asked: Seq<TokenV>)
    requires
        can_be_asked(star, columns),
    ensures
        tokens_from("SELECT "@ + asked_text(star, columns), 0) == Ok::<Seq<TokenV>, Seq<char>>(
            seq![TokenV::Word("SELECT"@)] + asked,
        ),
        star ==> asked == seq![TokenV::Star],
        !star ==> asked == sql_grammar::listed(columns),
{
    reveal_strlit("SELECT ");
    reveal_strlit("SELECT");
    reveal_strlit("*");
    reveal_strlit("key");
    reveal_strlit("value");
    reveal_strlit("key, value");
    reveal_strlit("value, key");
    let s0 = Seq::<char>::empty();
    let t0 = Seq::<TokenV>::empty();
    word_follows(s0, t0, "SELECT"@);
    let s1 = s0 + "SELECT"@;
    let t1 = t0.push(TokenV::Word("SELECT"@));
    space_follows(s1, t1);
    let s2 = s1 + seq![' '];
    assert(s2 =~= "SELECT "@);
    if star {
        mark_follows(s2, t1, '*', TokenV::Star);
        assert(s2 + seq!['*'] =~= "SELECT "@ + asked_text(star, columns));
        assert(t1.push(TokenV::Star) =~= seq![TokenV::Word("SELECT"@)] + seq![TokenV::Star]);
        seq![TokenV::Star]
    } else {
        let asked = sql_grammar::listed(columns);
        let name = if columns[0] == ColumnName::Key {
            "key"@
        } else {
            "value"@
        };
        word_follows(s2, t1, name);
        let s3 = s2 + name;
        let t3 = t1.push(TokenV::Word(name));
        assert(asked[0] == TokenV::Word(name));
        if columns.len() == 1 {
            assert(columns =~= seq![columns[0]]);
            assert(s3 =~= "SELECT "@ + asked_text(star, columns));
            assert(t3 =~= seq![TokenV::Word("SELECT"@)] + asked);
        } else {
            let other = if columns[1] == ColumnName::Key {
                "key"@
            } else {
                "value"@
            };
            mark_follows(s3, t3, ',', TokenV::Comma);
            let s4 = s3 + seq![','];
            let t4 = t3.push(TokenV::Comma);
            space_follows(s4, t4);
            let s5 = s4 + seq![' '];
            word_follows(s5, t4, other);
            let s6 = s5 + other;
            let t6 = t4.push(TokenV::Word(other));
            assert(columns =~= seq![columns[0], columns[1]]);
            assert(asked[1] == TokenV::Comma && asked[2] == TokenV::Word(other));
            assert(s6 =~= "SELECT "@ + asked_text(star, columns));
            assert(t6 =~= seq![TokenV::Word("SELECT"@)] + asked);
        }
        asked
    }
}

/// A SELECT of columns of all rows.
pub open spec fn select_text(star: bool, columns: Seq<ColumnName>) -> Seq<char> {
    "SELECT "@ + asked_text(star, columns) + " FROM kv"@
}

/// What a SELECT can ask for with at most one comma.
pub open spec fn can_be_asked(star: bool, columns: Seq<ColumnName>) -> bool {
    &&& star ==> columns == seq![ColumnName::Key, ColumnName::Value]
    &&& star || columns == seq![ColumnName::Key] || columns == seq![ColumnName::Value] || columns
        == seq![ColumnName::Key, ColumnName::Value] || columns == seq![
        ColumnName::Value,
        ColumnName::Key,
    ]
}

proof fn selects_lex(star: bool, columns: Seq<ColumnName>) -> (asked: Seq<TokenV>)
    requires
        can_be_asked(star, columns),
    ensures
        tokens_from(select_text(star, columns), 0) == Ok::<Seq<TokenV>, Seq<char>>(
            sql_grammar::select_tokens(asked, None),
        ),
        star ==> asked == seq![TokenV::Star],
        !star ==> asked == sql_grammar::listed(columns),
{
    let asked = asked_follows(star, columns);
    reveal_strlit(" FROM kv");
    reveal_strlit("FROM");
    reveal_strlit("kv");
    let s0 = "SELECT "@ + asked_text(star, columns);
    let t0 = seq![TokenV::Word("SELECT"@)] + asked;
    space_follows(s0, t0);
    let s1 = s0 + seq![' '];
    word_follows(s1, t0, "FROM"@);
    let s2 = s1 + "FROM"@;
    let t2 = t0.push(TokenV::Word("FROM"@));
    space_follows(s2, t2);
    let s3 = s2 + seq![' '];
    word_follows(s3, t2, "kv"@);
    let s4 = s3 + "kv"@;
    let t4 = t2.push(TokenV::Word("kv"@));
    assert(s4 =~= s0 + " FROM kv"@);
    assert(t4 =~= sql_grammar::select_tokens(asked, None));
    asked
}

/// What a SELECT asks for is said by its tokens.
proof fn selects_say_what_they_ask(
    star: bool,
    columns: Seq<ColumnName>,
    asked: Seq<TokenV>,
    predicate: Option<PredicateV>,
)
    requires
        can_be_asked(star, columns),
        star ==> asked == seq![TokenV::Star],
        !star ==> asked == sql_grammar::listed(columns),
    ensures
        sql_grammar::say(
            sql_grammar::select_tokens(asked, predicate),
            SqlStatementV::Select { table: TableName::Kv, projections: columns, predicate },
        ),
{
}

/// A SELECT without a condition asks for the columns that its text names, in
/// that order.
#[verifier::spinoff_prover]
#[verifier::rlimit(100)]
pub proof fn selects_have_their_columns(star: bool, columns: Seq<ColumnName>)
    requires
        can_be_asked(star, columns),
    ensures
        sql_parser::parsed(select_text(star, columns)) == Ok::<SqlStatementV, Seq<char>>(
            SqlStatementV::Select { table: TableName::Kv, projections: columns, predicate: None },
        ),
{
    let asked = selects_lex(star, columns);
    selects_say_what_they_ask(star, columns, asked, None);
    said_texts_parse(
        select_text(star, columns),
        sql_grammar::select_tokens(asked, None),
        SqlStatementV::Select { table: TableName::Kv, projections: columns, predicate: None },
    );
}

proof fn conditional_selects_lex(
    star: bool,
    columns: Seq<ColumnName>,
    column: ColumnName,
    op: ComparisonOp,
    t: Seq<char>,
) -> (asked: Seq<TokenV>)
    requires
        can_be_asked(star, columns),
    ensures
        tokens_from(
            select_text(star, columns) + " WHERE "@ + condition_text(column, op, t),
            0,
        ) == Ok::<Seq<TokenV>, Seq<char>>(
            sql_grammar::select_tokens(asked, Some(PredicateV { column, op, value: t })),
        ),
        star ==> asked == seq![TokenV::Star],
        !star ==> asked == sql_grammar::listed(columns),
{
    let asked = selects_lex(star, columns);
    let s0 = select_text(star, columns);
    let t0 = sql_grammar::select_tokens(asked, None);
    where_follows(s0, t0);
    let t1 = t0.push(TokenV::Word("WHERE"@));
    condition_follows(s0 + " WHERE "@, t1, column, op, t);
    let ts = t1 + seq![column_word(column), comparison_mark(op), TokenV::StringLiteral(t)];
    assert(ts =~= sql_grammar::select_tokens(asked, Some(PredicateV { column, op, value: t })));
    asked
}

/// A SELECT with a condition asks for the columns that its text names, and has
/// the condition that its text gives.
#[verifier::spinoff_prover]
#[verifier::rlimit(100)]
pub proof fn selects_have_their_condition(
    star: bool,
    columns: Seq<ColumnName>,
    column: ColumnName,
    op: ComparisonOp,
    t: Seq<char>,
)
    requires
        can_be_asked(star, columns),
    ensures
        sql_parser::parsed(
            select_text(star, columns) + " WHERE "@ + condition_text(column, op, t),
        ) == Ok::<SqlStatementV, Seq<char>>(
            SqlStatementV::Select {
                table: TableName::Kv,
                projections: columns,
                predicate: Some(PredicateV { column, op, value: t }),
            },
        ),
{
    let predicate = Some(PredicateV { column, op, value: t });
    let asked = conditional_selects_lex(star, columns, column, op, t);
    selects_say_what_they_ask(star, columns, asked, predicate);
    said_texts_parse(
        select_text(star, columns) + " WHERE "@ + condition_text(column, op, t),
        sql_grammar::select_tokens(asked, predicate),
        SqlStatementV::Select { table: TableName::Kv, projections: columns, predicate },
    );
}

proof fn plain_insert_heads()
    ensures
        tokens_from("INSERT INTO kv VALUES ("@, 0) == Ok::<Seq<TokenV>, Seq<char>>(
            seq![TokenV::Word("INSERT"@), TokenV::Word("INTO"@), TokenV::Word("kv"@), TokenV::Word("VALUES"@), TokenV::LParen],
        ),
        "INSERT INTO kv VALUES ("@.last() == '(',
{
    reveal_strlit("INSERT INTO kv VALUES (");
    reveal_strlit("INSERT");
    reveal_strlit("INTO");
    reveal_strlit("kv");
    reveal_strlit("VALUES");
    let s0 = Seq::<char>::empty();
    let t0 = Seq::<TokenV>::empty();
    word_follows(s0, t0, "INSERT"@);
    let s1 = s0 + "INSERT"@;
    let t1 = t0.push(TokenV::Word("INSERT"@));
    space_follows(s1, t1);
    let s2 = s1 + seq![' '];
    word_follows(s2, t1, "INTO"@);
    let s3 = s2 + "INTO"@;
    let t2 = t1.push(TokenV::Word("INTO"@));
    space_follows(s3, t2);
    let s4 = s3 + seq![' '];
    word_follows(s4, t2, "kv"@);
    let s5 = s4 + "kv"@;
    let t3 = t2.push(TokenV::Word("kv"@));
    space_follows(s5, t3);
    let s6 = s5 + seq![' '];
    word_follows(s6, t3, "VALUES"@);
    let s7 = s6 + "VALUES"@;
    let t4 = t3.push(TokenV::Word("VALUES"@));
    space_follows(s7, t4);
    let s8 = s7 + seq![' '];
    mark_follows(s8, t4, '(', TokenV::LParen);
    let s9 = s8 + seq!['('];
    let t5 = t4.push(TokenV::LParen);
    assert(s9 =~= "INSERT INTO kv VALUES ("@);
    assert(t5 =~= seq![TokenV::Word("INSERT"@), TokenV::Word("INTO"@), TokenV::Word("kv"@), TokenV::Word("VALUES"@), TokenV::LParen]);
}

proof fn swapped_insert_heads()
    ensures
        tokens_from("INSERT INTO kv (value, key) VALUES ("@, 0) == Ok::<Seq<TokenV>, Seq<char>>(
            seq![TokenV::Word("INSERT"@), TokenV::Word("INTO"@), TokenV::Word("kv"@), TokenV::LParen, TokenV::Word("value"@), TokenV::Comma, TokenV::Word("key"@), TokenV::RParen, TokenV::Word("VALUES"@), TokenV::LParen],
        ),
        "INSERT INTO kv (value, key) VALUES ("@.last() == '(',
{
    reveal_strlit("INSERT INTO kv (value, key) VALUES (");
    reveal_strlit("INSERT");
    reveal_strlit("INTO");
    reveal_strlit("kv");
    reveal_strlit("value");
    reveal_strlit("key");
    reveal_strlit("VALUES");
    let s0 = Seq::<char>::empty();
    let t0 = Seq::<TokenV>::empty();
    word_follows(s0, t0, "INSERT"@);
    let s1 = s0 + "INSERT"@;
    let t1 = t0.push(TokenV::Word("INSERT"@));
    space_follows(s1, t1);
    let s2 = s1 + seq![' '];
    word_follows(s2, t1, "INTO"@);
    let s3 = s2 + "INTO"@;
    let t2 = t1.push(TokenV::Word("INTO"@));
    space_follows(s3, t2);
    let s4 = s3 + seq![' '];
    word_follows(s4, t2, "kv"@);
    let s5 = s4 + "kv"@;
    let t3 = t2.push(TokenV::Word("kv"@));
    space_follows(s5, t3);
    let s6 = s5 + seq![' '];
    mark_follows(s6, t3, '(', TokenV::LParen);
    let s7 = s6 + seq!['('];
    let t4 = t3.push(TokenV::LParen);
    word_follows(s7, t4, "value"@);
    let s8 = s7 + "value"@;
    let t5 = t4.push(TokenV::Word("value"@));
    mark_follows(s8, t5, ',', TokenV::Comma);
    let s9 = s8 + seq![','];
    let t6 = t5.push(TokenV::Comma);
    space_follows(s9, t6);
    let s10 = s9 + seq![' '];
    word_follows(s10, t6, "key"@);
    let s11 = s10 + "key"@;
    let t7 = t6.push(TokenV::Word("key"@));
    mark_follows(s11, t7, ')', TokenV::RParen);
    let s12 = s11 + seq![')'];
    let t8 = t7.push(TokenV::RParen);
    space_follows(s12, t8);
    let s13 = s12 + seq![' '];
    word_follows(s13, t8, "VALUES"@);
    let s14 = s13 + "VALUES"@;
    let t9 = t8.push(TokenV::Word("VALUES"@));
    space_follows(s14, t9);
    let s15 = s14 + seq![' '];
    mark_follows(s15, t9, '(', TokenV::LParen);
    let s16 = s15 + seq!['('];
    let t10 = t9.push(TokenV::LParen);
    assert(s16 =~= "INSERT INTO kv (value, key) VALUES ("@);
    assert(t10 =~= seq![TokenV::Word("INSERT"@), TokenV::Word("INTO"@), TokenV::Word("kv"@), TokenV::LParen, TokenV::Word("value"@), TokenV::Comma, TokenV::Word("key"@), TokenV::RParen, TokenV::Word("VALUES"@), TokenV::LParen]);
}

/// Two literals and a closing parenthesis behind a text that opens one.
proof fn values_follow(s: Seq<char>, ts: Seq<TokenV>, first: Seq<char>, second: Seq<char>)
    requires
        tokens_from(s, 0) == Ok::<Seq<TokenV>, Seq<char>>(ts),
        s.last() == '(',
    ensures
        tokens_from(
            s + sql_lexer::quoted(first) + ", "@ + sql_lexer::quoted(second) + ")"@,
            0,
        ) == Ok::<Seq<TokenV>, Seq<char>>(
            ts + seq![
                TokenV::StringLiteral(first),
                TokenV::Comma,
                TokenV::StringLiteral(second),
                TokenV::RParen,
            ],
        ),
{
    reveal_strlit(", ");
    reveal_strlit(")");
    literal_follows(s, ts, first);
    let s1 = s + sql_lexer::quoted(first);
    let t1 = ts.push(TokenV::StringLiteral(first));
    mark_follows(s1, t1, ',', TokenV::Comma);
    let s2 = s1 + seq![','];
    let t2 = t1.push(TokenV::Comma);
    space_follows(s2, t2);
    let s3 = s2 + seq![' '];
    literal_follows(s3, t2, second);
    let s4 = s3 + sql_lexer::quoted(second);
    let t4 = t2.push(TokenV::StringLiteral(second));
    mark_follows(s4, t4, ')', TokenV::RParen);
    assert(s3 =~= s1 + ", "@);
    assert(s4 + seq![')'] =~= s + sql_lexer::quoted(first) + ", "@ + sql_lexer::quoted(second)
        + ")"@);
    assert(t4.push(TokenV::RParen) =~= ts + seq![
        TokenV::StringLiteral(first),
        TokenV::Comma,
        TokenV::StringLiteral(second),
        TokenV::RParen,
    ]);
}

proof fn plain_inserts_lex(key: Seq<char>, value: Seq<char>)
    ensures
        tokens_from(
            "INSERT INTO kv VALUES ("@ + sql_lexer::quoted(key) + ", "@ + sql_lexer::quoted(value)
                + ")"@,
            0,
        ) == Ok::<Seq<TokenV>, Seq<char>>(sql_grammar::insert_into(None, key, value)),
{
    plain_insert_heads();
    let head = "INSERT INTO kv VALUES ("@;
    let words = tokens_from(head, 0)->Ok_0;
    values_follow(head, words, key, value);
    assert(words + seq![
        TokenV::StringLiteral(key),
        TokenV::Comma,
        TokenV::StringLiteral(value),
        TokenV::RParen,
    ] =~= sql_grammar::insert_into(None, key, value));
}

proof fn swapped_inserts_lex(key: Seq<char>, value: Seq<char>)
    ensures
        tokens_from(
            "INSERT INTO kv (value, key) VALUES ("@ + sql_lexer::quoted(value) + ", "@
                + sql_lexer::quoted(key) + ")"@,
            0,
        ) == Ok::<Seq<TokenV>, Seq<char>>(
            sql_grammar::insert_into(Some((ColumnName::Value, ColumnName::Key)), value, key),
        ),
{
    swapped_insert_heads();
    let head = "INSERT INTO kv (value, key) VALUES ("@;
    let words = tokens_from(head, 0)->Ok_0;
    values_follow(head, words, value, key);
    assert(words + seq![
        TokenV::StringLiteral(value),
        TokenV::Comma,
        TokenV::StringLiteral(key),
        TokenV::RParen,
    ] =~= sql_grammar::insert_into(Some((ColumnName::Value, ColumnName::Key)), value, key));
}

/// An INSERT that names no columns gives the key first and then the value, as
/// one that names them in this order does.
#[verifier::spinoff_prover]
#[verifier::rlimit(100)]
pub proof fn unnamed_columns_are_key_and_value(key: Seq<char>, value: Seq<char>)
    ensures
        sql_parser::parsed(
            "INSERT INTO kv VALUES ("@ + sql_lexer::quoted(key) + ", "@ + sql_lexer::quoted(value)
                + ")"@,
        ) == Ok::<SqlStatementV, Seq<char>>(
            SqlStatementV::Insert { table: TableName::Kv, key, value },
        ),
        sql_parser::parsed(
            "INSERT INTO kv VALUES ("@ + sql_lexer::quoted(key) + ", "@ + sql_lexer::quoted(value)
                + ")"@,
        ) == sql_parser::parsed(insert_text(key, value)),
{
    plain_inserts_lex(key, value);
    inserted_literals_come_back(key, value);
    said_texts_parse(
        "INSERT INTO kv VALUES ("@ + sql_lexer::quoted(key) + ", "@ + sql_lexer::quoted(value)
            + ")"@,
        sql_grammar::insert_into(None, key, value),
        SqlStatementV::Insert { table: TableName::Kv, key, value },
    );
}

/// An INSERT that names the value first gives the value first.
#[verifier::spinoff_prover]
#[verifier::rlimit(100)]
pub proof fn named_columns_go_by_their_names(key: Seq<char>, value: Seq<char>)
    ensures
        sql_parser::parsed(
            "INSERT INTO kv (value, key) VALUES ("@ + sql_lexer::quoted(value) + ", "@
                + sql_lexer::quoted(key) + ")"@,
        ) == Ok::<SqlStatementV, Seq<char>>(
            SqlStatementV::Insert { table: TableName::Kv, key, value },
        ),
        sql_parser::parsed(
            "INSERT INTO kv (value, key) VALUES ("@ + sql_lexer::quoted(value) + ", "@
                + sql_lexer::quoted(key) + ")"@,
        ) == sql_parser::parsed(insert_text(key, value)),
{
    swapped_inserts_lex(key, value);
    inserted_literals_come_back(key, value);
    said_texts_parse(
        "INSERT INTO kv (value, key) VALUES ("@ + sql_lexer::quoted(value) + ", "@
            + sql_lexer::quoted(key) + ")"@,
        sql_grammar::insert_into(Some((ColumnName::Value, ColumnName::Key)), value, key),
        SqlStatementV::Insert { table: TableName::Kv, key, value },
    );
}

} // verus!
