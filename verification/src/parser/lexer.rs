//! Tokens.

use crate::number::decimal::{debug, parse, parse_number};
use crate::number::Number;
use crate::text::{
    cat2, cat3, chars_of, continues_name, count_text, decimal, end_of_run, is_digit, is_white,
    lemma_span, letter, letter_or_digit, quote, quoted, slice, slice_chars, span, starts_name,
    string_of, white, Class,
};
use vstd::prelude::*;

verus! {

#[derive(Debug, PartialEq)]
pub enum Token {
    Name(String),
    Number(Number),
    Literal(String),
    /// `$name`
    Variable(String),
    Slash,
    DoubleSlash,
    Dot,
    DoubleDot,
    At,
    Star,
    LeftParen,
    RightParen,
    LeftBracket,
    RightBracket,
    Comma,
    Pipe,
    Plus,
    Minus,
    Equal,
    NotEqual,
    Less,
    LessEqual,
    Greater,
    GreaterEqual,
    /// `::`
    DoubleColon,
}

/// What a token is.
pub enum TokenModel {
    Name(Seq<char>),
    Number(Number),
    Literal(Seq<char>),
    Variable(Seq<char>),
    Slash,
    DoubleSlash,
    Dot,
    DoubleDot,
    At,
    Star,
    LeftParen,
    RightParen,
    LeftBracket,
    RightBracket,
    Comma,
    Pipe,
    Plus,
    Minus,
    Equal,
    NotEqual,
    Less,
    LessEqual,
    Greater,
    GreaterEqual,
    DoubleColon,
}

impl View for Token {
    type V = TokenModel;

    open spec fn view(&self) -> TokenModel {
        match self {
            Token::Name(s) => TokenModel::Name(s@),
            Token::Number(n) => TokenModel::Number(*n),
            Token::Literal(s) => TokenModel::Literal(s@),
            Token::Variable(s) => TokenModel::Variable(s@),
            Token::Slash => TokenModel::Slash,
            Token::DoubleSlash => TokenModel::DoubleSlash,
            Token::Dot => TokenModel::Dot,
            Token::DoubleDot => TokenModel::DoubleDot,
            Token::At => TokenModel::At,
            Token::Star => TokenModel::Star,
            Token::LeftParen => TokenModel::LeftParen,
            Token::RightParen => TokenModel::RightParen,
            Token::LeftBracket => TokenModel::LeftBracket,
            Token::RightBracket => TokenModel::RightBracket,
            Token::Comma => TokenModel::Comma,
            Token::Pipe => TokenModel::Pipe,
            Token::Plus => TokenModel::Plus,
            Token::Minus => TokenModel::Minus,
            Token::Equal => TokenModel::Equal,
            Token::NotEqual => TokenModel::NotEqual,
            Token::Less => TokenModel::Less,
            Token::LessEqual => TokenModel::LessEqual,
            Token::Greater => TokenModel::Greater,
            Token::GreaterEqual => TokenModel::GreaterEqual,
            Token::DoubleColon => TokenModel::DoubleColon,
        }
    }
}

impl Clone for Token {
    fn clone(&self) -> (r: Token)
        ensures
            r@ == self@,
    {
        match self {
            Token::Name(s) => Token::Name(s.clone()),
            Token::Number(n) => Token::Number(*n),
            Token::Literal(s) => Token::Literal(s.clone()),
            Token::Variable(s) => Token::Variable(s.clone()),
            Token::Slash => Token::Slash,
            Token::DoubleSlash => Token::DoubleSlash,
            Token::Dot => Token::Dot,
            Token::DoubleDot => Token::DoubleDot,
            Token::At => Token::At,
            Token::Star => Token::Star,
            Token::LeftParen => Token::LeftParen,
            Token::RightParen => Token::RightParen,
            Token::LeftBracket => Token::LeftBracket,
            Token::RightBracket => Token::RightBracket,
            Token::Comma => Token::Comma,
            Token::Pipe => Token::Pipe,
            Token::Plus => Token::Plus,
            Token::Minus => Token::Minus,
            Token::Equal => Token::Equal,
            Token::NotEqual => Token::NotEqual,
            Token::Less => Token::Less,
            Token::LessEqual => Token::LessEqual,
            Token::Greater => Token::Greater,
            Token::GreaterEqual => Token::GreaterEqual,
            Token::DoubleColon => Token::DoubleColon,
        }
    }
}

/// A token as it is named in a message.
pub open spec fn token_text(t: TokenModel) -> Seq<char> {
    match t {
        TokenModel::Name(s) => "Name("@ + quoted(s) + ")"@,
        TokenModel::Number(n) => "Number("@ + debug(n) + ")"@,
        TokenModel::Literal(s) => "Literal("@ + quoted(s) + ")"@,
        TokenModel::Variable(s) => "Variable("@ + quoted(s) + ")"@,
        TokenModel::Slash => "Slash"@,
        TokenModel::DoubleSlash => "DoubleSlash"@,
        TokenModel::Dot => "Dot"@,
        TokenModel::DoubleDot => "DoubleDot"@,
        TokenModel::At => "At"@,
        TokenModel::Star => "Star"@,
        TokenModel::LeftParen => "LeftParen"@,
        TokenModel::RightParen => "RightParen"@,
        TokenModel::LeftBracket => "LeftBracket"@,
        TokenModel::RightBracket => "RightBracket"@,
        TokenModel::Comma => "Comma"@,
        TokenModel::Pipe => "Pipe"@,
        TokenModel::Plus => "Plus"@,
        TokenModel::Minus => "Minus"@,
        TokenModel::Equal => "Equal"@,
        TokenModel::NotEqual => "NotEqual"@,
        TokenModel::Less => "Less"@,
        TokenModel::LessEqual => "LessEqual"@,
        TokenModel::Greater => "Greater"@,
        TokenModel::GreaterEqual => "GreaterEqual"@,
        TokenModel::DoubleColon => "DoubleColon"@,
    }
}

impl Token {
    /// The token as it is named in a message.
    pub fn text(&self) -> (r: String)
        ensures
            r@ == token_text(self@),
    {
        match self {
            Token::Name(s) => cat3("Name(", quote(s.as_str()).as_str(), ")"),
            Token::Number(n) => cat3("Number(", n.debug().as_str(), ")"),
            Token::Literal(s) => cat3("Literal(", quote(s.as_str()).as_str(), ")"),
            Token::Variable(s) => cat3("Variable(", quote(s.as_str()).as_str(), ")"),
            Token::Slash => "Slash".to_string(),
            Token::DoubleSlash => "DoubleSlash".to_string(),
            Token::Dot => "Dot".to_string(),
            Token::DoubleDot => "DoubleDot".to_string(),
            Token::At => "At".to_string(),
            Token::Star => "Star".to_string(),
            Token::LeftParen => "LeftParen".to_string(),
            Token::RightParen => "RightParen".to_string(),
            Token::LeftBracket => "LeftBracket".to_string(),
            Token::RightBracket => "RightBracket".to_string(),
            Token::Comma => "Comma".to_string(),
            Token::Pipe => "Pipe".to_string(),
            Token::Plus => "Plus".to_string(),
            Token::Minus => "Minus".to_string(),
            Token::Equal => "Equal".to_string(),
            Token::NotEqual => "NotEqual".to_string(),
            Token::Less => "Less".to_string(),
            Token::LessEqual => "LessEqual".to_string(),
            Token::Greater => "Greater".to_string(),
            Token::GreaterEqual => "GreaterEqual".to_string(),
            Token::DoubleColon => "DoubleColon".to_string(),
        }
    }
}

// ---------------------------------------------------------------------------
// Reading tokens
// ---------------------------------------------------------------------------

/// Whether the character after `i` is `c`.
pub open spec fn next_is(s: Seq<char>, i: int, c: char) -> bool {
    i + 1 < s.len() && s[i + 1] == c
}

/// Where a name ends that runs from `i` on. It keeps its prefix:
/// `jr:choice-name` and `instance()` are told apart by it. But `::` is an
/// axis separator, not part of the name.
pub open spec fn name_end(s: Seq<char>, i: int) -> int
    decreases s.len() - i,
{
    if 0 <= i < s.len() && (continues_name(s[i]) || (s[i] == ':' && !next_is(s, i, ':'))) {
        name_end(s, i + 1)
    } else {
        i
    }
}

/// A token of punctuation, and how many characters it takes.
pub open spec fn punctuation(s: Seq<char>, i: int) -> Option<(TokenModel, int)> {
    let c = s[i];
    if c == '/' {
        if next_is(s, i, '/') {
            Some((TokenModel::DoubleSlash, 2))
        } else {
            Some((TokenModel::Slash, 1))
        }
    } else if c == '.' {
        if next_is(s, i, '.') {
            Some((TokenModel::DoubleDot, 2))
        } else if i + 1 < s.len() && is_digit(s[i + 1]) {
            None
        } else {
            Some((TokenModel::Dot, 1))
        }
    } else if c == '@' {
        Some((TokenModel::At, 1))
    } else if c == '*' {
        Some((TokenModel::Star, 1))
    } else if c == '(' {
        Some((TokenModel::LeftParen, 1))
    } else if c == ')' {
        Some((TokenModel::RightParen, 1))
    } else if c == '[' {
        Some((TokenModel::LeftBracket, 1))
    } else if c == ']' {
        Some((TokenModel::RightBracket, 1))
    } else if c == ',' {
        Some((TokenModel::Comma, 1))
    } else if c == '|' {
        Some((TokenModel::Pipe, 1))
    } else if c == '+' {
        Some((TokenModel::Plus, 1))
    } else if c == '-' {
        Some((TokenModel::Minus, 1))
    } else if c == '=' {
        Some((TokenModel::Equal, 1))
    } else if c == '!' && next_is(s, i, '=') {
        Some((TokenModel::NotEqual, 2))
    } else if c == '<' {
        if next_is(s, i, '=') {
            Some((TokenModel::LessEqual, 2))
        } else {
            Some((TokenModel::Less, 1))
        }
    } else if c == '>' {
        if next_is(s, i, '=') {
            Some((TokenModel::GreaterEqual, 2))
        } else {
            Some((TokenModel::Greater, 1))
        }
    } else if c == ':' && next_is(s, i, ':') {
        Some((TokenModel::DoubleColon, 2))
    } else {
        None
    }
}

/// A number that a token writes, and where the token ends.
pub open spec fn number_token(s: Seq<char>, i: int, end: int) -> Result<
    (TokenModel, int),
    Seq<char>,
> {
    let text = s.subrange(i, end);
    match parse_number(text) {
        Some(n) => Ok((TokenModel::Number(n), end)),
        None => Err("'"@ + text + "' is not a number"@),
    }
}

/// The token that begins at `i`, which is no white space, and where it ends.
pub open spec fn token_at(s: Seq<char>, i: int) -> Result<(TokenModel, int), Seq<char>> {
    let c = s[i];
    match punctuation(s, i) {
        Some((t, n)) => Ok((t, i + n)),
        None => if c == '.' {
            number_token(s, i, span(s, i + 1, Class::Digit))
        } else if c == '\'' || c == '"' {
            let end = span(s, i + 1, Class::Not(c));
            if end >= s.len() {
                Err("unterminated string starting at character "@ + decimal((i + 1) as nat))
            } else {
                Ok((TokenModel::Literal(s.subrange(i + 1, end)), end + 1))
            }
        } else if c == '$' {
            let end = span(s, i + 1, Class::NameChar);
            Ok((TokenModel::Variable(s.subrange(i + 1, end)), end))
        } else if is_digit(c) {
            number_token(s, i, span(s, i, Class::DigitOrDot))
        } else if starts_name(c) {
            let end = name_end(s, i + 1);
            Ok((TokenModel::Name(s.subrange(i, end)), end))
        } else {
            Err("unexpected character '"@ + seq![c] + "'"@)
        },
    }
}

pub proof fn lemma_name_end(s: Seq<char>, i: int)
    requires
        0 <= i <= s.len(),
    ensures
        i <= name_end(s, i) <= s.len(),
    decreases s.len() - i,
{
    if i < s.len() {
        lemma_name_end(s, i + 1);
    }
}

pub proof fn lemma_token_at(s: Seq<char>, i: int)
    requires
        0 <= i < s.len(),
    ensures
        token_at(s, i) matches Ok((_, end)) ==> i < end <= s.len(),
{
    lemma_name_end(s, i + 1);
    lemma_span(s, i + 1, Class::Digit);
    lemma_span(s, i + 1, Class::Not(s[i]));
    lemma_span(s, i + 1, Class::NameChar);
    lemma_span(s, i, Class::DigitOrDot);
    if is_digit(s[i]) {
        lemma_span(s, i + 1, Class::DigitOrDot);
        assert(span(s, i, Class::DigitOrDot) == span(s, i + 1, Class::DigitOrDot));
    }
}

/// The tokens of a text from `i` on.
pub open spec fn tokens_from(s: Seq<char>, i: int) -> Result<Seq<TokenModel>, Seq<char>>
    decreases s.len() - i,
{
    if i < 0 || i >= s.len() {
        Ok(Seq::empty())
    } else if is_white(s[i]) {
        tokens_from(s, i + 1)
    } else {
        proof {
            lemma_token_at(s, i);
        }
        match token_at(s, i) {
            Err(e) => Err(e),
            Ok((t, end)) => after(seq![t], tokens_from(s, end)),
        }
    }
}

/// A list with others before it.
pub open spec fn after<T>(first: Seq<T>, rest: Result<Seq<T>, Seq<char>>) -> Result<
    Seq<T>,
    Seq<char>,
> {
    match rest {
        Ok(s) => Ok(first + s),
        Err(e) => Err(e),
    }
}

pub open spec fn token_models(v: Seq<Token>) -> Seq<TokenModel> {
    Seq::new(v.len(), |i: int| v[i]@)
}

fn punctuation_at(s: &Vec<char>, i: usize) -> (r: Option<(Token, usize)>)
    requires
        i < s@.len(),
    ensures
        match punctuation(s@, i as int) {
            Some((t, n)) => r matches Some(p) && p.0@ == t && p.1 == n && 1 <= n <= 2,
            None => r is None,
        },
{
    let c = s[i];
    let n = s.len();
    let next: Option<char> = if i < n - 1 {
        Some(s[i + 1])
    } else {
        None
    };
    let twice = match next {
        Some(d) => d == c,
        None => false,
    };
    let equals = match next {
        Some(d) => d == '=',
        None => false,
    };
    let digit = match next {
        Some(d) => '0' <= d && d <= '9',
        None => false,
    };
    if c == '/' {
        if twice {
            Some((Token::DoubleSlash, 2))
        } else {
            Some((Token::Slash, 1))
        }
    } else if c == '.' {
        if twice {
            Some((Token::DoubleDot, 2))
        } else if digit {
            None
        } else {
            Some((Token::Dot, 1))
        }
    } else if c == '@' {
        Some((Token::At, 1))
    } else if c == '*' {
        Some((Token::Star, 1))
    } else if c == '(' {
        Some((Token::LeftParen, 1))
    } else if c == ')' {
        Some((Token::RightParen, 1))
    } else if c == '[' {
        Some((Token::LeftBracket, 1))
    } else if c == ']' {
        Some((Token::RightBracket, 1))
    } else if c == ',' {
        Some((Token::Comma, 1))
    } else if c == '|' {
        Some((Token::Pipe, 1))
    } else if c == '+' {
        Some((Token::Plus, 1))
    } else if c == '-' {
        Some((Token::Minus, 1))
    } else if c == '=' {
        Some((Token::Equal, 1))
    } else if c == '!' && equals {
        Some((Token::NotEqual, 2))
    } else if c == '<' {
        if equals {
            Some((Token::LessEqual, 2))
        } else {
            Some((Token::Less, 1))
        }
    } else if c == '>' {
        if equals {
            Some((Token::GreaterEqual, 2))
        } else {
            Some((Token::Greater, 1))
        }
    } else if c == ':' && twice {
        Some((Token::DoubleColon, 2))
    } else {
        None
    }
}

fn number_at(s: &Vec<char>, i: usize, end: usize) -> (r: Result<(Token, usize), String>)
    requires
        i <= end <= s@.len(),
    ensures
        token_seen(r) == number_token(s@, i as int, end as int),
{
    let text = slice_chars(s, i, end);
    match parse(&text) {
        Some(n) => Ok((Token::Number(n), end)),
        None => Err(cat3("'", string_of(&text).as_str(), "' is not a number")),
    }
}

pub open spec fn token_seen(r: Result<(Token, usize), String>) -> Result<
    (TokenModel, int),
    Seq<char>,
> {
    match r {
        Ok((t, end)) => Ok((t@, end as int)),
        Err(e) => Err(e@),
    }
}

fn end_of_name(s: &Vec<char>, i: usize) -> (r: usize)
    requires
        i <= s@.len(),
    ensures
        r == name_end(s@, i as int),
        i <= r <= s@.len(),
{
    proof {
        lemma_name_end(s@, i as int);
    }
    let n = s.len();
    let mut j: usize = i;
    while j < n && (letter_or_digit(s[j]) || s[j] == '_' || s[j] == '-' || s[j] == '.' || (s[j]
        == ':' && !(j < n - 1 && s[j + 1] == ':')))
        invariant
            i <= j <= n,
            n == s@.len(),
            name_end(s@, i as int) == name_end(s@, j as int),
        decreases n - j,
    {
        j = j + 1;
    }
    j
}

fn read_token(s: &Vec<char>, i: usize) -> (r: Result<(Token, usize), String>)
    requires
        i < s@.len(),
    ensures
        token_seen(r) == token_at(s@, i as int),
{
    let c = s[i];
    let len = s.len();
    proof {
        lemma_token_at(s@, i as int);
    }
    if let Some((t, n)) = punctuation_at(s, i) {
        return Ok((t, i + n));
    }
    if c == '.' {
        let end = end_of_run(s, i + 1, Class::Digit);
        number_at(s, i, end)
    } else if c == '\'' || c == '"' {
        let end = end_of_run(s, i + 1, Class::Not(c));
        if end >= len {
            return Err(
                cat2("unterminated string starting at character ", count_text(i + 1).as_str()),
            );
        }
        Ok((Token::Literal(slice(s, i + 1, end)), end + 1))
    } else if c == '$' {
        let end = end_of_run(s, i + 1, Class::NameChar);
        Ok((Token::Variable(slice(s, i + 1, end)), end))
    } else if '0' <= c && c <= '9' {
        let end = end_of_run(s, i, Class::DigitOrDot);
        number_at(s, i, end)
    } else if letter(c) || c == '_' {
        let end = end_of_name(s, i + 1);
        Ok((Token::Name(slice(s, i, end)), end))
    } else {
        let one = slice(s, i, i + 1);
        assert(one@ == seq![c]);
        Err(cat3("unexpected character '", one.as_str(), "'"))
    }
}

pub fn tokenize(input: &str) -> (r: Result<Vec<Token>, String>)
    ensures
        match tokens_from(input@, 0) {
            Ok(tokens) => r matches Ok(v) && token_models(v@) == tokens,
            Err(e) => r matches Err(m) && m@ == e,
        },
{
    let s = chars_of(input);
    let mut out: Vec<Token> = Vec::new();
    let mut i: usize = 0;
    let n = s.len();
    let ghost all = tokens_from(s@, 0);
    proof {
        assert(token_models(out@) == Seq::<TokenModel>::empty());
        if let Ok(t) = all {
            assert(Seq::<TokenModel>::empty() + t == t);
        }
    }
    while i < n
        invariant
            n == s@.len(),
            i <= n,
            s@ == input@,
            all == tokens_from(input@, 0),
            all == after(token_models(out@), tokens_from(s@, i as int)),
        decreases n - i,
    {
        if white(s[i]) {
            i = i + 1;
            continue;
        }
        proof {
            lemma_token_at(s@, i as int);
        }
        match read_token(&s, i) {
            Err(e) => {
                return Err(e);
            },
            Ok((t, end)) => {
                let ghost before = out@;
                let ghost rest = tokens_from(s@, end as int);
                out.push(t);
                proof {
                    assert(token_models(out@) == token_models(before).push(t@));
                    if let Ok(r) = rest {
                        assert(token_models(before) + (seq![t@] + r) == token_models(out@) + r);
                    }
                }
                i = end;
            },
        }
    }
    assert(token_models(out@) + Seq::<TokenModel>::empty() == token_models(out@));
    Ok(out)
}

} // verus!
