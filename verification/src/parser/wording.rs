//! How tokens are written, and that they are read as they are written.

use crate::number::decimal::{lemma_count_parses, parse_number};
use crate::number::of_count;
use crate::parser::ast::ExprModel;
use crate::parser::grammar::parse_model;
use crate::parser::lexer::{
    name_end, punctuation, token_at, tokens_from, TokenModel,
};
use crate::parser::spelling::{can_be_written, law_read_as_spelled, spelled};
use crate::text::laws::lemma_span_is;
use crate::text::{decimal, in_class, is_digit, is_white, Class};
use vstd::prelude::*;

verus! {

/// Whether a character is a letter of the Latin alphabet.
pub open spec fn is_latin(c: char) -> bool {
    'a' <= c <= 'z' || 'A' <= c <= 'Z'
}

/// Whether a text is a name: it begins with a letter or an underscore, goes
/// on with letters, digits, underscores, dashes and dots, and may have a
/// prefix before a colon, but no two colons in a row.
pub open spec fn is_name(s: Seq<char>) -> bool {
    &&& s.len() > 0
    &&& is_latin(s[0]) || s[0] == '_'
    &&& forall|i: int|
        1 <= i < s.len() ==> is_latin(#[trigger] s[i]) || '0' <= s[i] <= '9' || s[i] == '_'
            || s[i] == '-' || s[i] == '.' || (s[i] == ':' && !(i + 1 < s.len() && s[i + 1]
            == ':'))
}

/// Whether a text is written with digits and points, a digit first, or a
/// point and digits.
pub open spec fn is_figure(s: Seq<char>) -> bool {
    &&& s.len() > 0
    &&& '0' <= s[0] <= '9' || (s[0] == '.' && s.len() > 1)
    &&& forall|i: int|
        1 <= i < s.len() ==> '0' <= #[trigger] s[i] <= '9' || (s[i] == '.' && s[0] != '.')
}

/// Whether a word is how a token is written.
pub open spec fn is_word_of(w: Seq<char>, token: TokenModel) -> bool {
    match token {
        TokenModel::Name(n) => is_name(n) && w == n,
        TokenModel::Number(n) => is_figure(w) && parse_number(w) == Some(n),
        TokenModel::Literal(s) => (w == seq!['\''] + s + seq!['\''] && !s.contains('\'')) || (w
            == seq!['"'] + s + seq!['"'] && !s.contains('"')),
        TokenModel::Variable(s) => is_name(s) && !s.contains(':') && w == seq!['$'] + s,
        TokenModel::Slash => w == seq!['/'],
        TokenModel::DoubleSlash => w == seq!['/', '/'],
        TokenModel::Dot => w == seq!['.'],
        TokenModel::DoubleDot => w == seq!['.', '.'],
        TokenModel::At => w == seq!['@'],
        TokenModel::Star => w == seq!['*'],
        TokenModel::LeftParen => w == seq!['('],
        TokenModel::RightParen => w == seq![')'],
        TokenModel::LeftBracket => w == seq!['['],
        TokenModel::RightBracket => w == seq![']'],
        TokenModel::Comma => w == seq![','],
        TokenModel::Pipe => w == seq!['|'],
        TokenModel::Plus => w == seq!['+'],
        TokenModel::Minus => w == seq!['-'],
        TokenModel::Equal => w == seq!['='],
        TokenModel::NotEqual => w == seq!['!', '='],
        TokenModel::Less => w == seq!['<'],
        TokenModel::LessEqual => w == seq!['<', '='],
        TokenModel::Greater => w == seq!['>'],
        TokenModel::GreaterEqual => w == seq!['>', '='],
        TokenModel::DoubleColon => w == seq![':', ':'],
    }
}

/// Whether words are how tokens are written, one word for each.
pub open spec fn are_words_of(words: Seq<Seq<char>>, tokens: Seq<TokenModel>) -> bool {
    words.len() == tokens.len() && forall|i: int|
        0 <= i < tokens.len() ==> is_word_of(words[i], #[trigger] tokens[i])
}

/// Words from the one at `i` on, with a space behind each.
pub open spec fn spaced(words: Seq<Seq<char>>, i: int) -> Seq<char>
    decreases words.len() - i,
{
    if 0 <= i < words.len() {
        words[i] + (seq![' '] + spaced(words, i + 1))
    } else {
        Seq::empty()
    }
}

proof fn lemma_name_read(s: Seq<char>, i: int, j: int, end: int)
    requires
        0 <= i < end < s.len(),
        s[end] == ' ',
        is_name(s.subrange(i, end)),
        i < j <= end,
    ensures
        name_end(s, j) == end,
    decreases end - j,
{
    if j < end {
        let w = s.subrange(i, end);
        assert(s[j] == w[j - i]);
        if j + 1 < end {
            assert(s[j + 1] == w[j + 1 - i]);
        }
        lemma_name_read(s, i, j + 1, end);
    }
}

/// A word with a space behind it is read as its token.
#[verifier::rlimit(40)]
proof fn lemma_word_read(s: Seq<char>, i: int, w: Seq<char>, token: TokenModel)
    requires
        0 <= i,
        i + w.len() < s.len(),
        s.subrange(i, i + w.len()) == w,
        s[i + w.len()] == ' ',
        is_word_of(w, token),
    ensures
        w.len() > 0,
        !is_white(s[i]),
        token_at(s, i) == Ok::<(TokenModel, int), Seq<char>>((token, i + w.len())),
{
    let end = i + w.len();
    assert(w.len() > 0);
    assert(s[i] == w[0]);
    if w.len() > 1 {
        assert(s[i + 1] == w[1]);
    }
    match token {
        TokenModel::Name(n) => {
            lemma_name_read(s, i, i + 1, end);
        },
        TokenModel::Number(n) => {
            lemma_figure_read(s, i, w);
        },
        TokenModel::Literal(x) => {
            lemma_literal_read(s, i, w, x);
        },
        TokenModel::Variable(x) => {
            assert forall|k: int| i + 1 <= k < end implies in_class(
                Class::NameChar,
                #[trigger] s[k],
            ) by {
                assert(s[k] == w[k - i]);
                assert(w[k - i] == x[k - i - 1]);
                assert(x.contains(x[k - i - 1]));
            }
            lemma_span_is(s, i + 1, end, Class::NameChar);
            assert(s.subrange(i + 1, end) =~= x) by {
                assert forall|k: int| 0 <= k < x.len() implies s[i + 1 + k] == x[k] by {
                    assert(s[i + 1 + k] == w[k + 1]);
                }
            }
        },
        _ => {
            assert(punctuation(s, i) == Some((token, w.len() as int)));
        },
    }
}

proof fn lemma_figure_read(s: Seq<char>, i: int, w: Seq<char>)
    requires
        0 <= i,
        i + w.len() < s.len(),
        s.subrange(i, i + w.len()) == w,
        s[i + w.len()] == ' ',
        is_figure(w),
        parse_number(w) is Some,
    ensures
        !is_white(s[i]),
        token_at(s, i) == Ok::<(TokenModel, int), Seq<char>>(
            (TokenModel::Number(parse_number(w)->0), i + w.len()),
        ),
{
    let end = i + w.len();
    assert(s[i] == w[0]);
    if w.len() > 1 {
        assert(s[i + 1] == w[1]);
    }
    if w[0] == '.' {
        assert forall|k: int| i + 1 <= k < end implies in_class(Class::Digit, #[trigger] s[k]) by {
            assert(s[k] == w[k - i]);
        }
        lemma_span_is(s, i + 1, end, Class::Digit);
        assert(punctuation(s, i) is None);
    } else {
        assert forall|k: int| i <= k < end implies in_class(
            Class::DigitOrDot,
            #[trigger] s[k],
        ) by {
            assert(s[k] == w[k - i]);
        }
        lemma_span_is(s, i, end, Class::DigitOrDot);
        assert(punctuation(s, i) is None);
    }
}

proof fn lemma_literal_read(s: Seq<char>, i: int, w: Seq<char>, x: Seq<char>)
    requires
        0 <= i,
        i + w.len() < s.len(),
        s.subrange(i, i + w.len()) == w,
        is_word_of(w, TokenModel::Literal(x)),
    ensures
        !is_white(s[i]),
        token_at(s, i) == Ok::<(TokenModel, int), Seq<char>>(
            (TokenModel::Literal(x), i + w.len()),
        ),
{
    let end = i + w.len();
    let c = w[0];
    assert(w == seq![c] + x + seq![c] && !x.contains(c) && (c == '\'' || c == '"'));
    assert(s[i] == c);
    assert forall|k: int| i + 1 <= k < end - 1 implies in_class(Class::Not(c), #[trigger] s[k]) by {
        assert(s[k] == w[k - i]);
        assert(w[k - i] == x[k - i - 1]);
        assert(x.contains(x[k - i - 1]));
    }
    assert(s[end - 1] == w[w.len() - 1]);
    lemma_span_is(s, i + 1, end - 1, Class::Not(c));
    assert(s.subrange(i + 1, end - 1) =~= x) by {
        assert forall|k: int| 0 <= k < x.len() implies s[i + 1 + k] == x[k] by {
            assert(s[i + 1 + k] == w[k + 1]);
        }
    }
    assert(punctuation(s, i) is None);
}

proof fn lemma_words_read(
    s: Seq<char>,
    i: int,
    words: Seq<Seq<char>>,
    tokens: Seq<TokenModel>,
    k: int,
)
    requires
        are_words_of(words, tokens),
        0 <= k <= words.len(),
        0 <= i <= s.len(),
        s.skip(i) == spaced(words, k),
    ensures
        tokens_from(s, i) == Ok::<Seq<TokenModel>, Seq<char>>(tokens.skip(k)),
    decreases words.len() - k,
{
    if k < words.len() {
        let w = words[k];
        let rest = spaced(words, k + 1);
        let r = s.skip(i);
        assert(is_word_of(w, tokens[k]));
        assert(r == w + (seq![' '] + rest));
        let m = i + w.len();
        assert(s.subrange(i, m) =~= w) by {
            assert forall|x: int| 0 <= x < w.len() implies s[i + x] == w[x] by {
                assert(r[x] == w[x]);
            }
        }
        assert(r[w.len() as int] == ' ');
        assert(s[m] == ' ');
        lemma_word_read(s, i, w, tokens[k]);
        assert(s.skip(m + 1) =~= rest) by {
            assert forall|x: int| 0 <= x < rest.len() implies s[m + 1 + x] == rest[x] by {
                assert(r[w.len() + 1 + x] == rest[x]);
            }
        }
        lemma_words_read(s, m + 1, words, tokens, k + 1);
        assert(is_white(' '));
        assert(tokens_from(s, m) == tokens_from(s, m + 1));
        assert(tokens.skip(k) =~= seq![tokens[k]] + tokens.skip(k + 1));
    } else {
        assert(s.skip(i).len() == 0);
        assert(tokens.skip(k) =~= Seq::empty());
    }
}

/// A text is read word by word: what is written with a space behind each
/// word has the tokens that the words write.
pub proof fn law_words_are_read(words: Seq<Seq<char>>, tokens: Seq<TokenModel>)
    requires
        are_words_of(words, tokens),
    ensures
        tokens_from(spaced(words, 0), 0) == Ok::<Seq<TokenModel>, Seq<char>>(tokens),
{
    let s = spaced(words, 0);
    assert(s.skip(0) =~= s);
    lemma_words_read(s, 0, words, tokens, 0);
    assert(tokens.skip(0) =~= tokens);
}

/// An expression that is written in words, with no parentheses but those it
/// needs, is read as that expression.
pub proof fn law_written_expressions_are_read(e: ExprModel, words: Seq<Seq<char>>)
    requires
        can_be_written(e),
        are_words_of(words, spelled(e, 0)),
    ensures
        parse_model(spaced(words, 0)) == Ok::<ExprModel, Seq<char>>(e),
{
    law_words_are_read(words, spelled(e, 0));
    law_read_as_spelled(spaced(words, 0), e);
}

/// A count is written by its digits.
pub proof fn law_counts_are_words(k: nat)
    ensures
        is_word_of(decimal(k), TokenModel::Number(of_count(k))),
{
    lemma_count_parses(k);
    let s = decimal(k);
    assert(is_digit(s[0]));
    assert forall|i: int| 1 <= i < s.len() implies '0' <= #[trigger] s[i] <= '9' by {
        assert(is_digit(s[i]));
    }
}

} // verus!
