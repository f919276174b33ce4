//! Which texts hold which tokens, and what the texts of statements come to.
use vstd::prelude::*;

use crate::api_model::ApiV;
use crate::sql_ast;
use crate::sql_ast::{ColumnName, ComparisonOp, KvExecutionPlanV, PredicateV, SqlStatementV, TableName};
use crate::sql_grammar;
use crate::sql_grammar::{alike, closed_by, say};
use crate::sql_laws;
use crate::sql_lexer;
use crate::sql_lexer::{tokens_from, TokenV};
use crate::sql_parser;
use crate::sql_plan;
use crate::text;

verus! {

/// A letter of the alphabet, a digit or an underscore.
pub open spec fn in_words(c: char) -> bool {
    let n = c as u32;
    97 <= n <= 122 || 65 <= n <= 90 || 48 <= n <= 57 || n == 95
}

/// White space: space, tab, line feed, vertical tab, form feed, carriage return,
/// next line, no-break space, and the spaces and separators of typesetting.
pub open spec fn separates(c: char) -> bool {
    let n = c as u32;
    n == 0x20 || 0x09 <= n <= 0x0d || n == 0x85 || n == 0xa0 || n == 0x1680 || 0x2000 <= n
        <= 0x200a || n == 0x2028 || n == 0x2029 || n == 0x202f || n == 0x205f || n == 0x3000
}

/// A token as it is spelled.
pub open spec fn spelling(token: TokenV) -> Seq<char> {
    match token {
        TokenV::Word(word) => word,
        TokenV::StringLiteral(t) => sql_lexer::quoted(t),
        TokenV::Comma => seq![','],
        TokenV::LParen => seq!['('],
        TokenV::RParen => seq![')'],
        TokenV::Eq => seq!['='],
        TokenV::NotEq => seq!['!', '='],
        TokenV::Star => seq!['*'],
        TokenV::Semicolon => seq![';'],
    }
}

/// A token that can be spelled: a word has letters.
pub open spec fn can_be_spelled(token: TokenV) -> bool {
    token matches TokenV::Word(word) ==> word.len() > 0 && forall|k: int|
        0 <= k < word.len() ==> in_words(#[trigger] word[k])
}

/// Two tokens that run together without a space between them.
pub open spec fn run_together(t: TokenV, u: TokenV) -> bool {
    (t is Word && u is Word) || (t is StringLiteral && u is StringLiteral)
}

/// Tokens with what stands before, between and behind them.
pub open spec fn spelled_out(ts: Seq<TokenV>, gaps: Seq<Seq<char>>) -> Seq<char>
    decreases ts.len(),
{
    if ts.len() == 0 {
        gaps[0]
    } else {
        gaps[0] + spelling(ts[0]) + spelled_out(ts.skip(1), gaps.skip(1))
    }
}

/// Only white space stands between tokens, and some where they would run
/// together.
pub open spec fn spaced(ts: Seq<TokenV>, gaps: Seq<Seq<char>>) -> bool {
    &&& gaps.len() == ts.len() + 1
    &&& forall|i: int, k: int|
        0 <= i < gaps.len() && 0 <= k < gaps[i].len() ==> separates(#[trigger] gaps[i][k])
    &&& forall|i: int| 0 <= i < ts.len() ==> can_be_spelled(#[trigger] ts[i])
    &&& forall|i: int|
        0 < i < ts.len() && run_together(ts[i - 1], #[trigger] ts[i]) ==> gaps[i].len() > 0
}

proof fn characters_are_told_apart(c: char)
    ensures
        separates(c) == text::is_whitespace(c),
        in_words(c) == sql_lexer::is_word_char(c),
        !(separates(c) && in_words(c)),
        c == '\'' || c == ',' || c == '(' || c == ')' || c == '=' || c == '!' || c == '*' || c
            == ';' ==> !separates(c) && !in_words(c),
{
}

/// The rest of what is spaced is spaced.
proof fn spaced_goes_on(ts: Seq<TokenV>, gaps: Seq<Seq<char>>)
    requires
        spaced(ts, gaps),
        ts.len() > 0,
    ensures
        spaced(ts.skip(1), gaps.skip(1)),
{
    let rest = ts.skip(1);
    let tail = gaps.skip(1);
    assert forall|i: int, k: int| 0 <= i < tail.len() && 0 <= k < tail[i].len() implies separates(
        #[trigger] tail[i][k],
    ) by {
        assert(separates(gaps[i + 1][k]));
    }
    assert forall|i: int| 0 <= i < rest.len() implies can_be_spelled(#[trigger] rest[i]) by {
        assert(can_be_spelled(ts[i + 1]));
    }
    assert forall|i: int| 0 < i < rest.len() && run_together(rest[i - 1], #[trigger] rest[i]) implies tail[i].len()
        > 0 by {
        assert(run_together(ts[i], ts[i + 1]));
    }
}

/// What starts a spelled token.
proof fn spellings_start(token: TokenV)
    requires
        can_be_spelled(token),
    ensures
        spelling(token).len() > 0,
        token is Word <==> in_words(spelling(token)[0]),
        token is StringLiteral <==> spelling(token)[0] == '\'',
        !separates(spelling(token)[0]),
{
    characters_are_told_apart(spelling(token)[0]);
    if let TokenV::Word(word) = token {
        assert(in_words(word[0]));
    }
}

/// White space before tokens holds none.
proof fn gaps_are_skipped(gap: Seq<char>, t: Seq<char>, i: int)
    requires
        0 <= i <= gap.len(),
        forall|k: int| 0 <= k < gap.len() ==> separates(#[trigger] gap[k]),
    ensures
        tokens_from(gap + t, i) == tokens_from(t, 0),
    decreases gap.len() - i,
{
    let s = gap + t;
    if i == gap.len() {
        sql_laws::tokens_shift(gap, t, 0);
    } else {
        assert(s[i] == gap[i]);
        assert(separates(gap[i]));
        characters_are_told_apart(gap[i]);
        gaps_are_skipped(gap, t, i + 1);
    }
}

proof fn word_ends(word: Seq<char>, t: Seq<char>, i: int)
    requires
        0 <= i <= word.len(),
        forall|k: int| 0 <= k < word.len() ==> in_words(#[trigger] word[k]),
        t.len() == 0 || !in_words(t[0]),
    ensures
        sql_lexer::word_end(word + t, i) == word.len(),
    decreases word.len() - i,
{
    let s = word + t;
    if i < word.len() {
        assert(s[i] == word[i]);
        assert(in_words(word[i]));
        characters_are_told_apart(word[i]);
        word_ends(word, t, i + 1);
    } else if t.len() > 0 {
        assert(s[i] == t[0]);
        characters_are_told_apart(t[0]);
    }
}

proof fn literal_ends(before: Seq<char>, t: Seq<char>, rest: Seq<char>, read: Seq<char>)
    requires
        rest.len() == 0 || rest[0] != '\'',
    ensures
        sql_lexer::literal_rest(
            before + sql_lexer::doubled(t) + seq!['\''] + rest,
            before.len() as int,
            read,
        ) == Some((read + t, (before.len() + sql_lexer::doubled(t).len() + 1) as int)),
    decreases t.len(),
{
    let s = before + sql_lexer::doubled(t) + seq!['\''] + rest;
    let i = before.len() as int;
    if t.len() == 0 {
        assert(read + t =~= read);
        assert(s[i] == '\'');
        if rest.len() > 0 {
            assert(s[i + 1] == rest[0]);
        }
    } else {
        let more = t.skip(1);
        let head = if t[0] == '\'' {
            seq!['\'', '\'']
        } else {
            seq![t[0]]
        };
        literal_ends(before + head, more, rest, read.push(t[0]));
        assert(before + head + sql_lexer::doubled(more) + seq!['\''] + rest =~= s);
        assert(read.push(t[0]) + more =~= read + t);
        assert(s[i] == t[0]);
        if t[0] == '\'' {
            assert(s[i + 1] == '\'');
        }
    }
}

/// A spelled token is read, up to what follows it.
proof fn spelled_tokens_are_read(token: TokenV, rest: Seq<char>)
    requires
        can_be_spelled(token),
        token is Word ==> rest.len() == 0 || !in_words(rest[0]),
        token is StringLiteral ==> rest.len() == 0 || rest[0] != '\'',
    ensures
        sql_lexer::token_at(spelling(token) + rest, 0) == Ok::<(TokenV, int), Seq<char>>(
            (token, spelling(token).len() as int),
        ),
        !text::is_whitespace((spelling(token) + rest)[0]),
{
    let s = spelling(token) + rest;
    spellings_start(token);
    assert(s[0] == spelling(token)[0]);
    characters_are_told_apart(s[0]);
    match token {
        TokenV::Word(word) => {
            word_ends(word, rest, 0);
            assert(s.subrange(0, word.len() as int) =~= word);
        },
        TokenV::StringLiteral(t) => {
            literal_ends(seq!['\''], t, rest, Seq::empty());
            assert(seq!['\''] + sql_lexer::doubled(t) + seq!['\''] + rest =~= s);
            assert(Seq::<char>::empty() + t =~= t);
        },
        TokenV::NotEq => {
            assert(s[1] == '=');
        },
        _ => {},
    }
}

/// What follows a token in what is spelled out does not go on with it.
proof fn next_starts(ts: Seq<TokenV>, gaps: Seq<Seq<char>>)
    requires
        spaced(ts, gaps),
        ts.len() > 0,
    ensures
        ({
            let rest = spelled_out(ts.skip(1), gaps.skip(1));
            &&& ts[0] is Word ==> rest.len() == 0 || !in_words(rest[0])
            &&& ts[0] is StringLiteral ==> rest.len() == 0 || rest[0] != '\''
        }),
{
    let rest = spelled_out(ts.skip(1), gaps.skip(1));
    let gap = gaps[1];
    assert(gaps.skip(1)[0] == gap);
    if gap.len() > 0 {
        assert(rest[0] == gap[0]);
        assert(separates(gaps[1][0]));
        characters_are_told_apart(gap[0]);
    } else if ts.len() > 1 {
        assert(ts.skip(1)[0] == ts[1]);
        assert(can_be_spelled(ts[1]));
        spellings_start(ts[1]);
        assert(rest[0] == spelling(ts[1])[0]);
        assert(!run_together(ts[1 - 1], ts[1]));
    }
}

proof fn spelled_texts_are_read(ts: Seq<TokenV>, gaps: Seq<Seq<char>>)
    requires
        spaced(ts, gaps),
    ensures
        tokens_from(spelled_out(ts, gaps), 0) == Ok::<Seq<TokenV>, Seq<char>>(ts),
    decreases ts.len(),
{
    let gap = gaps[0];
    assert forall|k: int| 0 <= k < gap.len() implies separates(#[trigger] gap[k]) by {
        assert(separates(gaps[0][k]));
    }
    if ts.len() == 0 {
        gaps_are_skipped(gap, Seq::empty(), 0);
        assert(gap + Seq::<char>::empty() =~= gap);
        assert(tokens_from(Seq::<char>::empty(), 0) == Ok::<Seq<TokenV>, Seq<char>>(Seq::empty()));
        assert(ts =~= Seq::empty());
    } else {
        let rest = spelled_out(ts.skip(1), gaps.skip(1));
        let word = spelling(ts[0]);
        let s = word + rest;
        spaced_goes_on(ts, gaps);
        spelled_texts_are_read(ts.skip(1), gaps.skip(1));
        next_starts(ts, gaps);
        assert(can_be_spelled(ts[0]));
        spelled_tokens_are_read(ts[0], rest);
        spellings_start(ts[0]);
        sql_lexer::tokens_make_progress(s, 0);
        sql_laws::tokens_shift(word, rest, 0);
        assert(seq![ts[0]] + ts.skip(1) =~= ts);
        gaps_are_skipped(gap, s, 0);
        assert(gap + s =~= spelled_out(ts, gaps));
    }
}

proof fn words_were_spelled(s: Seq<char>, i: int)
    requires
        0 <= i <= s.len(),
    ensures
        ({
            let end = sql_lexer::word_end(s, i);
            &&& i <= end <= s.len()
            &&& forall|k: int| i <= k < end ==> in_words(#[trigger] s[k])
            &&& end == s.len() || !in_words(s[end])
        }),
    decreases s.len() - i,
{
    if i < s.len() {
        characters_are_told_apart(s[i]);
        if sql_lexer::is_word_char(s[i]) {
            words_were_spelled(s, i + 1);
        }
    }
}

proof fn literals_were_spelled(s: Seq<char>, i: int, read: Seq<char>) -> (t: Seq<char>)
    requires
        0 <= i <= s.len(),
        sql_lexer::literal_rest(s, i, read) is Some,
    ensures
        ({
            let (value, next) = sql_lexer::literal_rest(s, i, read)->0;
            &&& value == read + t
            &&& i < next <= s.len()
            &&& s.subrange(i, next) == sql_lexer::doubled(t) + seq!['\'']
            &&& next == s.len() || s[next] != '\''
        }),
    decreases s.len() - i,
{
    let (value, next) = sql_lexer::literal_rest(s, i, read)->0;
    if s[i] != '\'' {
        let rest = literals_were_spelled(s, i + 1, read.push(s[i]));
        let t = seq![s[i]] + rest;
        assert(t.skip(1) =~= rest);
        assert(read.push(s[i]) + rest =~= read + t);
        assert(s.subrange(i, next) =~= seq![s[i]] + s.subrange(i + 1, next));
        assert(s.subrange(i, next) =~= sql_lexer::doubled(t) + seq!['\'']);
        t
    } else if i + 1 < s.len() && s[i + 1] == '\'' {
        let rest = literals_were_spelled(s, i + 2, read.push('\''));
        let t = seq!['\''] + rest;
        assert(t.skip(1) =~= rest);
        assert(read.push('\'') + rest =~= read + t);
        assert(s.subrange(i, next) =~= seq!['\'', '\''] + s.subrange(i + 2, next));
        assert(s.subrange(i, next) =~= sql_lexer::doubled(t) + seq!['\'']);
        t
    } else {
        let t = Seq::<char>::empty();
        assert(read + t =~= read);
        assert(s.subrange(i, next) =~= sql_lexer::doubled(t) + seq!['\'']);
        t
    }
}

/// A token that was read was spelled, and nothing that follows goes on with it.
proof fn read_tokens_were_spelled(s: Seq<char>)
    requires
        s.len() > 0,
        sql_lexer::token_at(s, 0) is Ok,
    ensures
        ({
            let (token, next) = sql_lexer::token_at(s, 0)->Ok_0;
            &&& 0 < next <= s.len()
            &&& s.take(next) == spelling(token)
            &&& can_be_spelled(token)
            &&& token is Word ==> next == s.len() || !in_words(s[next])
            &&& token is StringLiteral ==> next == s.len() || s[next] != '\''
        }),
{
    let (token, next) = sql_lexer::token_at(s, 0)->Ok_0;
    sql_lexer::tokens_make_progress(s, 0);
    match token {
        TokenV::Word(word) => {
            words_were_spelled(s, 0);
            assert(s.take(next) =~= word);
            assert forall|k: int| 0 <= k < word.len() implies in_words(#[trigger] word[k]) by {
                assert(in_words(s[k]));
            }
        },
        TokenV::StringLiteral(value) => {
            let t = literals_were_spelled(s, 1, Seq::empty());
            assert(Seq::<char>::empty() + t =~= t);
            assert(s.take(next) =~= seq!['\''] + s.subrange(1, next));
            assert(s.take(next) =~= sql_lexer::quoted(value));
        },
        TokenV::NotEq => {
            assert(s.take(next) =~= seq!['!', '=']);
        },
        _ => {
            assert(s.take(next) =~= spelling(token));
        },
    }
}

/// A gap that grows by a space.
proof fn gaps_grow(c: char, ts: Seq<TokenV>, gaps: Seq<Seq<char>>) -> (more: Seq<Seq<char>>)
    requires
        separates(c),
        spaced(ts, gaps),
    ensures
        spaced(ts, more),
        spelled_out(ts, more) == seq![c] + spelled_out(ts, gaps),
{
    let more = gaps.update(0, seq![c] + gaps[0]);
    assert forall|i: int, k: int| 0 <= i < more.len() && 0 <= k < more[i].len() implies separates(
        #[trigger] more[i][k],
    ) by {
        if i == 0 {
            if k > 0 {
                assert(separates(gaps[0][k - 1]));
            }
        } else {
            assert(separates(gaps[i][k]));
        }
    }
    assert(more.skip(1) =~= gaps.skip(1));
    if ts.len() > 0 {
        let rest = spelled_out(ts.skip(1), gaps.skip(1));
        assert(spelled_out(ts, more) =~= seq![c] + (gaps[0] + spelling(ts[0]) + rest));
    }
    more
}

/// A token before others.
proof fn tokens_are_put_first(token: TokenV, ts: Seq<TokenV>, gaps: Seq<Seq<char>>) -> (more: Seq<
    Seq<char>,
>)
    requires
        spaced(ts, gaps),
        can_be_spelled(token),
        ts.len() > 0 && run_together(token, ts[0]) ==> gaps[0].len() > 0,
    ensures
        spaced(seq![token] + ts, more),
        spelled_out(seq![token] + ts, more) == spelling(token) + spelled_out(ts, gaps),
{
    let all = seq![token] + ts;
    let none = Seq::<char>::empty();
    let more = seq![none] + gaps;
    assert(all.skip(1) =~= ts);
    assert(more.skip(1) =~= gaps);
    assert(none + spelling(token) =~= spelling(token));
    assert forall|i: int, k: int| 0 <= i < more.len() && 0 <= k < more[i].len() implies separates(
        #[trigger] more[i][k],
    ) by {
        assert(i > 0);
        assert(separates(gaps[i - 1][k]));
    }
    assert forall|i: int| 0 <= i < all.len() implies can_be_spelled(#[trigger] all[i]) by {
        if i > 0 {
            assert(can_be_spelled(ts[i - 1]));
        }
    }
    assert forall|i: int| 0 < i < all.len() && run_together(all[i - 1], #[trigger] all[i]) implies more[i].len()
        > 0 by {
        if i > 1 {
            assert(run_together(ts[i - 1 - 1], ts[i - 1]));
        }
    }
    more
}

proof fn read_texts_were_spelled(s: Seq<char>, ts: Seq<TokenV>) -> (gaps: Seq<Seq<char>>)
    requires
        tokens_from(s, 0) == Ok::<Seq<TokenV>, Seq<char>>(ts),
    ensures
        spaced(ts, gaps),
        s == spelled_out(ts, gaps),
    decreases s.len(),
{
    if s.len() == 0 {
        let gaps = seq![Seq::<char>::empty()];
        assert(ts =~= Seq::empty());
        assert(s =~= gaps[0]);
        gaps
    } else if text::is_whitespace(s[0]) {
        let first = seq![s[0]];
        let rest = s.skip(1);
        assert(first + rest =~= s);
        sql_laws::tokens_shift(first, rest, 0);
        let gaps = read_texts_were_spelled(rest, ts);
        characters_are_told_apart(s[0]);
        gaps_grow(s[0], ts, gaps)
    } else {
        let (token, next) = sql_lexer::token_at(s, 0)->Ok_0;
        read_tokens_were_spelled(s);
        sql_lexer::tokens_make_progress(s, 0);
        let first = s.take(next);
        let rest = s.skip(next);
        assert(first + rest =~= s);
        sql_laws::tokens_shift(first, rest, 0);
        let others = tokens_from(s, next)->Ok_0;
        let gaps = read_texts_were_spelled(rest, others);
        if others.len() > 0 && gaps[0].len() == 0 {
            assert(can_be_spelled(others[0]));
            spellings_start(others[0]);
            assert(rest[0] == spelling(others[0])[0]);
            assert(s[next] == rest[0]);
        }
        tokens_are_put_first(token, others, gaps)
    }
}

/// A text holds tokens exactly where it spells them out in order, with only
/// white space between them, and some between two words and between two
/// literals.
pub proof fn texts_hold_what_they_spell(s: Seq<char>, ts: Seq<TokenV>)
    ensures
        tokens_from(s, 0) == Ok::<Seq<TokenV>, Seq<char>>(ts) <==> exists|gaps: Seq<Seq<char>>|
            spaced(ts, gaps) && s == #[trigger] spelled_out(ts, gaps),
{
    if tokens_from(s, 0) == Ok::<Seq<TokenV>, Seq<char>>(ts) {
        let gaps = read_texts_were_spelled(s, ts);
        assert(spaced(ts, gaps) && s == spelled_out(ts, gaps));
    }
    if exists|gaps: Seq<Seq<char>>| spaced(ts, gaps) && s == #[trigger] spelled_out(ts, gaps) {
        let gaps = choose|gaps: Seq<Seq<char>>|
            spaced(ts, gaps) && s == #[trigger] spelled_out(ts, gaps);
        spelled_texts_are_read(ts, gaps);
    }
}

/// A text is read as a statement exactly where it spells out tokens that say it,
/// in words of any case, with or without a semicolon behind them.
pub proof fn texts_are_read_as_written(s: Seq<char>, statement: SqlStatementV)
    ensures
        sql_parser::parsed(s) == Ok::<SqlStatementV, Seq<char>>(statement) <==> exists|
            ts: Seq<TokenV>,
            gaps: Seq<Seq<char>>,
            body: Seq<TokenV>,
            semicolon: bool,
        |
            {
                &&& spaced(ts, gaps)
                &&& s == #[trigger] spelled_out(ts, gaps)
                &&& say(body, statement)
                &&& alike(ts, #[trigger] closed_by(body, semicolon))
            },
{
    if let Ok(ts) = tokens_from(s, 0) {
        texts_hold_what_they_spell(s, ts);
        sql_grammar::statements_are_read_as_said(ts, statement);
    }
    if exists|ts: Seq<TokenV>, gaps: Seq<Seq<char>>, body: Seq<TokenV>, semicolon: bool| {
        &&& spaced(ts, gaps)
        &&& s == #[trigger] spelled_out(ts, gaps)
        &&& say(body, statement)
        &&& alike(ts, #[trigger] closed_by(body, semicolon))
    } {
        let (ts, gaps, body, semicolon) = choose|
            ts: Seq<TokenV>,
            gaps: Seq<Seq<char>>,
            body: Seq<TokenV>,
            semicolon: bool,
        | {
            &&& spaced(ts, gaps)
            &&& s == #[trigger] spelled_out(ts, gaps)
            &&& say(body, statement)
            &&& alike(ts, #[trigger] closed_by(body, semicolon))
        };
        texts_hold_what_they_spell(s, ts);
        sql_grammar::statements_are_read_as_said(ts, statement);
    }
}

/// Behind a token and a blank a text is read as it is alone, and so are its
/// faults: the message of the first is that of the whole.
pub proof fn reading_goes_on_behind_a_token(token: TokenV, t: Seq<char>)
    requires
        can_be_spelled(token),
    ensures
        tokens_from(spelling(token) + (seq![' '] + t), 0) == match tokens_from(t, 0) {
            Ok(ts) => Ok(seq![token] + ts),
            Err(message) => Err(message),
        },
{
    let rest = seq![' '] + t;
    assert(rest[0] == ' ');
    spelled_tokens_are_read(token, rest);
    sql_laws::tokens_shift(spelling(token), rest, 0);
    assert forall|k: int| 0 <= k < 1 implies separates(#[trigger] seq![' '][k]) by {}
    gaps_are_skipped(seq![' '], t, 0);
}

proof fn open_literals_do_not_end(s: Seq<char>, i: int, read: Seq<char>)
    requires
        0 <= i,
        forall|k: int| i <= k < s.len() ==> #[trigger] s[k] != '\'',
    ensures
        sql_lexer::literal_rest(s, i, read) is None,
    decreases s.len() - i,
{
    if i < s.len() {
        assert(s[i] != '\'');
        open_literals_do_not_end(s, i + 1, read.push(s[i]));
    }
}

/// A text is refused where it comes to a character that starts no token, to an
/// exclamation mark without an equals sign, or to a quote that nothing closes;
/// and it is refused for that.
pub proof fn faults_are_named(s: Seq<char>)
    requires
        s.len() > 0,
    ensures
        ({
            let c = s[0];
            &&& !separates(c) && !in_words(c) && c != '\'' && c != ',' && c != '(' && c != ')' && c
                != '=' && c != '!' && c != '*' && c != ';' ==> tokens_from(s, 0) == Err::<
                Seq<TokenV>,
                Seq<char>,
            >("unexpected character '"@ + seq![c] + "'"@)
            &&& c == '!' && (s.len() == 1 || s[1] != '=') ==> tokens_from(s, 0) == Err::<
                Seq<TokenV>,
                Seq<char>,
            >("unexpected '!' (expected '!=')"@)
            &&& c == '\'' && (forall|k: int| 1 <= k < s.len() ==> #[trigger] s[k] != '\'')
                ==> tokens_from(s, 0) == Err::<Seq<TokenV>, Seq<char>>(
                "unterminated single-quoted literal"@,
            )
        }),
{
    characters_are_told_apart(s[0]);
    if forall|k: int| 1 <= k < s.len() ==> #[trigger] s[k] != '\'' {
        open_literals_do_not_end(s, 1, Seq::empty());
    }
}

} // verus!
