//! Splitting a statement into tokens.
use vstd::prelude::*;

use crate::sql_ast::{SqlError, SqlResult};
use crate::text;
use crate::text::{chars_of, char_is_whitespace, debug_text, join2, join3};

verus! {

/// A token of the SQL subset.
#[derive(Debug, PartialEq, Eq)]
pub enum Token {
    Word(String),
    StringLiteral(String),
    Comma,
    LParen,
    RParen,
    Eq,
    NotEq,
    Star,
    Semicolon,
}

/// A [`Token`] over its characters.
pub enum TokenV {
    Word(Seq<char>),
    StringLiteral(Seq<char>),
    Comma,
    LParen,
    RParen,
    Eq,
    NotEq,
    Star,
    Semicolon,
}

impl View for Token {
    type V = TokenV;

    open spec fn view(&self) -> TokenV {
        match self {
            Token::Word(word) => TokenV::Word(word@),
            Token::StringLiteral(value) => TokenV::StringLiteral(value@),
            Token::Comma => TokenV::Comma,
            Token::LParen => TokenV::LParen,
            Token::RParen => TokenV::RParen,
            Token::Eq => TokenV::Eq,
            Token::NotEq => TokenV::NotEq,
            Token::Star => TokenV::Star,
            Token::Semicolon => TokenV::Semicolon,
        }
    }
}

impl Clone for Token {
    fn clone(&self) -> (r: Self)
        ensures
            r == *self,
    {
        match self {
            Token::Word(word) => Token::Word(word.clone()),
            Token::StringLiteral(value) => Token::StringLiteral(value.clone()),
            Token::Comma => Token::Comma,
            Token::LParen => Token::LParen,
            Token::RParen => Token::RParen,
            Token::Eq => Token::Eq,
            Token::NotEq => Token::NotEq,
            Token::Star => Token::Star,
            Token::Semicolon => Token::Semicolon,
        }
    }
}

/// The views of a sequence of tokens.
pub open spec fn token_views(tokens: Seq<Token>) -> Seq<TokenV> {
    Seq::new(tokens.len(), |i: int| tokens[i]@)
}

/// How a token is shown in messages.
pub open spec fn token_debug(token: TokenV) -> Seq<char> {
    match token {
        TokenV::Word(word) => "Word("@ + text::debug_form(word) + ")"@,
        TokenV::StringLiteral(value) => "StringLiteral("@ + text::debug_form(value) + ")"@,
        TokenV::Comma => "Comma"@,
        TokenV::LParen => "LParen"@,
        TokenV::RParen => "RParen"@,
        TokenV::Eq => "Eq"@,
        TokenV::NotEq => "NotEq"@,
        TokenV::Star => "Star"@,
        TokenV::Semicolon => "Semicolon"@,
    }
}

/// How a token that may be absent is shown in messages.
pub open spec fn found_debug(token: Option<TokenV>) -> Seq<char> {
    match token {
        Some(t) => "Some("@ + token_debug(t) + ")"@,
        None => "None"@,
    }
}

/// A token as it is shown where `shown` is what stands for its own text.
pub fn token_debug_with(token: &Token, shown: &str) -> (r: String)
    ensures
        r@ == match token@ {
            TokenV::Word(_) => "Word("@ + shown@ + ")"@,
            TokenV::StringLiteral(_) => "StringLiteral("@ + shown@ + ")"@,
            other => token_debug(other),
        },
{
    match token {
        Token::Word(_) => join3("Word(", shown, ")"),
        Token::StringLiteral(_) => join3("StringLiteral(", shown, ")"),
        Token::Comma => "Comma".to_owned(),
        Token::LParen => "LParen".to_owned(),
        Token::RParen => "RParen".to_owned(),
        Token::Eq => "Eq".to_owned(),
        Token::NotEq => "NotEq".to_owned(),
        Token::Star => "Star".to_owned(),
        Token::Semicolon => "Semicolon".to_owned(),
    }
}

/// A token as it is shown in messages.
pub fn show_token(token: &Token) -> (r: String)
    ensures
        r@ == token_debug(token@),
{
    match token {
        Token::Word(word) => token_debug_with(token, debug_text(word.as_str()).as_str()),
        Token::StringLiteral(value) => token_debug_with(token, debug_text(value.as_str()).as_str()),
        _ => token_debug_with(token, ""),
    }
}

/// A token that may be absent as it is shown in messages.
pub fn show_found(token: &Option<Token>) -> (r: String)
    ensures
        r@ == found_debug(
            match token {
                Some(t) => Some(t@),
                None => None,
            },
        ),
{
    match token {
        Some(t) => join3("Some(", show_token(t).as_str(), ")"),
        None => "None".to_owned(),
    }
}

/// The characters of names, keywords and numbers.
pub open spec fn is_word_char(c: char) -> bool {
    ('a' <= c && c <= 'z') || ('A' <= c && c <= 'Z') || ('0' <= c && c <= '9') || c == '_'
}

/// Where the run of word characters from `i` on ends.
pub open spec fn word_end(s: Seq<char>, i: int) -> int
    decreases s.len() - i,
{
    if 0 <= i < s.len() && is_word_char(s[i]) {
        word_end(s, i + 1)
    } else {
        i
    }
}

/// The rest of a quoted literal from `i` on, behind what was read of it, and
/// the place after its closing quote. Two quotes stand for one.
pub open spec fn literal_rest(s: Seq<char>, i: int, read: Seq<char>) -> Option<(Seq<char>, int)>
    decreases s.len() - i,
{
    if !(0 <= i < s.len()) {
        None
    } else if s[i] != '\'' {
        literal_rest(s, i + 1, read.push(s[i]))
    } else if i + 1 < s.len() && s[i + 1] == '\'' {
        literal_rest(s, i + 2, read.push('\''))
    } else {
        Some((read, i + 1))
    }
}

/// The token that starts at `i`, and the place after it.
pub open spec fn token_at(s: Seq<char>, i: int) -> Result<(TokenV, int), Seq<char>> {
    let c = s[i];
    if c == ',' {
        Ok((TokenV::Comma, i + 1))
    } else if c == '(' {
        Ok((TokenV::LParen, i + 1))
    } else if c == ')' {
        Ok((TokenV::RParen, i + 1))
    } else if c == '=' {
        Ok((TokenV::Eq, i + 1))
    } else if c == '*' {
        Ok((TokenV::Star, i + 1))
    } else if c == ';' {
        Ok((TokenV::Semicolon, i + 1))
    } else if c == '!' {
        if i + 1 < s.len() && s[i + 1] == '=' {
            Ok((TokenV::NotEq, i + 2))
        } else {
            Err("unexpected '!' (expected '!=')"@)
        }
    } else if c == '\'' {
        match literal_rest(s, i + 1, Seq::empty()) {
            Some((value, next)) => Ok((TokenV::StringLiteral(value), next)),
            None => Err("unterminated single-quoted literal"@),
        }
    } else if is_word_char(c) {
        Ok((TokenV::Word(s.subrange(i, word_end(s, i))), word_end(s, i)))
    } else {
        Err("unexpected character '"@ + seq![c] + "'"@)
    }
}

proof fn word_end_bounds(s: Seq<char>, i: int)
    requires
        0 <= i <= s.len(),
    ensures
        i <= word_end(s, i) <= s.len(),
        i < s.len() && is_word_char(s[i]) ==> word_end(s, i) > i,
    decreases s.len() - i,
{
    if i < s.len() && is_word_char(s[i]) {
        word_end_bounds(s, i + 1);
    }
}

proof fn literal_rest_bounds(s: Seq<char>, i: int, read: Seq<char>)
    requires
        0 <= i <= s.len(),
    ensures
        literal_rest(s, i, read) matches Some(found) ==> i < found.1 <= s.len(),
    decreases s.len() - i,
{
    if i < s.len() {
        if s[i] != '\'' {
            literal_rest_bounds(s, i + 1, read.push(s[i]));
        } else if i + 1 < s.len() && s[i + 1] == '\'' {
            literal_rest_bounds(s, i + 2, read.push('\''));
        }
    }
}

/// A token takes at least one character, and none beyond the end.
pub proof fn tokens_make_progress(s: Seq<char>, i: int)
    requires
        0 <= i < s.len(),
    ensures
        token_at(s, i) matches Ok(found) ==> i < found.1 <= s.len(),
{
    word_end_bounds(s, i);
    literal_rest_bounds(s, i + 1, Seq::empty());
}

/// The tokens from `i` on, or the message of the first fault.
pub open spec fn tokens_from(s: Seq<char>, i: int) -> Result<Seq<TokenV>, Seq<char>>
    decreases s.len() - i,
{
    if !(0 <= i < s.len()) {
        Ok(Seq::empty())
    } else if text::is_whitespace(s[i]) {
        tokens_from(s, i + 1)
    } else {
        proof {
            tokens_make_progress(s, i);
        }
        match token_at(s, i) {
            Err(message) => Err(message),
            Ok((token, next)) => match tokens_from(s, next) {
                Err(message) => Err(message),
                Ok(rest) => Ok(seq![token] + rest),
            },
        }
    }
}

fn word_char(c: char) -> (r: bool)
    ensures
        r == is_word_char(c),
{
    ('a' <= c && c <= 'z') || ('A' <= c && c <= 'Z') || ('0' <= c && c <= '9') || c == '_'
}

/// Reads the rest of a quoted literal.
fn read_literal(s: &Vec<char>, start: usize) -> (r: Option<(String, usize)>)
    requires
        start <= s@.len(),
    ensures
        match literal_rest(s@, start as int, Seq::empty()) {
            Some((value, next)) => r matches Some(found) && found.0@ == value && found.1 == next,
            None => r is None,
        },
{
    let mut literal = String::new();
    let mut i: usize = start;
    assert(literal@ =~= Seq::<char>::empty());
    while i < s.len()
        invariant
            start <= i <= s@.len(),
            literal_rest(s@, start as int, Seq::empty()) == literal_rest(
                s@,
                i as int,
                literal@,
            ),
        decreases s@.len() - i,
    {
        if s[i] != '\'' {
            literal.push(s[i]);
            i += 1;
        } else if s.len() - i > 1 && s[i + 1] == '\'' {
            literal.push('\'');
            i += 2;
        } else {
            return Some((literal, i + 1));
        }
    }
    None
}

/// Reads a run of word characters.
fn read_word(s: &Vec<char>, start: usize) -> (r: (String, usize))
    requires
        start <= s@.len(),
    ensures
        r.1 == word_end(s@, start as int),
        r.0@ == s@.subrange(start as int, word_end(s@, start as int)),
{
    let mut word = String::new();
    let mut i: usize = start;
    assert(word@ =~= s@.subrange(start as int, i as int));
    while i < s.len() && word_char(s[i])
        invariant
            start <= i <= s@.len(),
            word_end(s@, start as int) == word_end(s@, i as int),
            word@ == s@.subrange(start as int, i as int),
        decreases s@.len() - i,
    {
        word.push(s[i]);
        assert(word@ =~= s@.subrange(start as int, i + 1));
        i += 1;
    }
    (word, i)
}

/// Reads the token that starts at `i`.
fn read_token(s: &Vec<char>, i: usize) -> (r: SqlResult<(Token, usize)>)
    requires
        i < s@.len(),
    ensures
        match token_at(s@, i as int) {
            Ok((token, next)) => r matches Ok(found) && found.0@ == token && found.1 == next,
            Err(message) => r matches Err(e) && e.message@ == message,
        },
{
    let c: char = s[i];
    let _length: usize = s.len();
    if c == ',' {
        Ok((Token::Comma, i + 1))
    } else if c == '(' {
        Ok((Token::LParen, i + 1))
    } else if c == ')' {
        Ok((Token::RParen, i + 1))
    } else if c == '=' {
        Ok((Token::Eq, i + 1))
    } else if c == '*' {
        Ok((Token::Star, i + 1))
    } else if c == ';' {
        Ok((Token::Semicolon, i + 1))
    } else if c == '!' {
        if s.len() - i > 1 && s[i + 1] == '=' {
            Ok((Token::NotEq, i + 2))
        } else {
            Err(SqlError::new("unexpected '!' (expected '!=')"))
        }
    } else if c == '\'' {
        match read_literal(s, i + 1) {
            Some((value, next)) => Ok((Token::StringLiteral(value), next)),
            None => Err(SqlError::new("unterminated single-quoted literal")),
        }
    } else if word_char(c) {
        let (word, next) = read_word(s, i);
        Ok((Token::Word(word), next))
    } else {
        let mut message = "unexpected character '".to_owned();
        message.push(c);
        let message = join2(message.as_str(), "'");
        assert("unexpected character '"@.push(c) =~= "unexpected character '"@ + seq![c]);
        Err(SqlError { message })
    }
}

/// Splits a statement into tokens.
pub fn lex(sql: &str) -> (r: SqlResult<Vec<Token>>)
    ensures
        match tokens_from(sql@, 0) {
            Ok(tokens) => r matches Ok(found) && token_views(found@) == tokens,
            Err(message) => r matches Err(e) && e.message@ == message,
        },
{
    let s = chars_of(sql);
    let mut tokens: Vec<Token> = Vec::new();
    let mut i: usize = 0;
    proof {
        if tokens_from(s@, 0) is Ok {
            assert(tokens_from(s@, 0)->Ok_0 =~= token_views(tokens@) + tokens_from(s@, 0)->Ok_0);
        }
    }
    while i < s.len()
        invariant
            s@ == sql@,
            i <= s@.len(),
            match tokens_from(s@, i as int) {
                Ok(rest) => tokens_from(s@, 0) == Ok::<Seq<TokenV>, Seq<char>>(
                    token_views(tokens@) + rest,
                ),
                Err(message) => tokens_from(s@, 0) == Err::<Seq<TokenV>, Seq<char>>(message),
            },
        decreases s@.len() - i,
    {
        if char_is_whitespace(s[i]) {
            i += 1;
        } else {
            proof {
                tokens_make_progress(s@, i as int);
            }
            let (token, next) = match read_token(&s, i) {
                Ok(found) => found,
                Err(error) => {
                    return Err(error);
                },
            };
            let ghost seen = token_views(tokens@);
            let ghost t = token@;
            tokens.push(token);
            proof {
                assert(token_views(tokens@) =~= seen.push(t));
                if tokens_from(s@, next as int) is Ok {
                    let tail = tokens_from(s@, next as int)->Ok_0;
                    assert(seen + (seq![t] + tail) =~= seen.push(t) + tail);
                }
            }
            i = next;
        }
    }
    assert(token_views(tokens@) + Seq::<TokenV>::empty() =~= token_views(tokens@));
    Ok(tokens)
}

/// A text with every quote doubled.
pub open spec fn doubled(t: Seq<char>) -> Seq<char>
    decreases t.len(),
{
    if t.len() == 0 {
        Seq::empty()
    } else if t[0] == '\'' {
        seq!['\'', '\''] + doubled(t.skip(1))
    } else {
        seq![t[0]] + doubled(t.skip(1))
    }
}

/// A text as a quoted literal.
pub open spec fn quoted(t: Seq<char>) -> Seq<char> {
    seq!['\''] + doubled(t) + seq!['\'']
}

proof fn doubled_reads_back(before: Seq<char>, t: Seq<char>, read: Seq<char>)
    ensures
        ({
            let s = before + doubled(t) + seq!['\''];
            literal_rest(s, before.len() as int, read) == Some((read + t, s.len() as int))
        }),
    decreases t.len(),
{
    let s = before + doubled(t) + seq!['\''];
    let i = before.len() as int;
    if t.len() == 0 {
        assert(read + t =~= read);
    } else {
        let rest = t.skip(1);
        let head = if t[0] == '\'' {
            seq!['\'', '\'']
        } else {
            seq![t[0]]
        };
        doubled_reads_back(before + head, rest, read.push(t[0]));
        assert(before + head + doubled(rest) + seq!['\''] =~= s);
        assert(read.push(t[0]) + rest =~= read + t);
        assert(s[i] == t[0]);
        if t[0] == '\'' {
            assert(s[i + 1] == '\'');
        }
    }
}

/// Any text can be written as a quoted literal, and is read back as it was.
pub proof fn quoted_literals_read_back(t: Seq<char>)
    ensures
        tokens_from(quoted(t), 0) == Ok::<Seq<TokenV>, Seq<char>>(
            seq![TokenV::StringLiteral(t)],
        ),
{
    let s = quoted(t);
    doubled_reads_back(seq!['\''], t, Seq::empty());
    assert(Seq::<char>::empty() + t =~= t);
    assert(s[0] == '\'');
    assert(token_at(s, 0) == Ok::<(TokenV, int), Seq<char>>(
        (TokenV::StringLiteral(t), s.len() as int),
    ));
    assert(tokens_from(s, s.len() as int) == Ok::<Seq<TokenV>, Seq<char>>(Seq::empty()));
    assert(seq![TokenV::StringLiteral(t)] + Seq::<TokenV>::empty() =~= seq![
        TokenV::StringLiteral(t),
    ]);
}

} // verus!
