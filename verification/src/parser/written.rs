//! Paths that are written out, name by name, are read as they are written.

use crate::number::decimal::lemma_count_parses;
use crate::number::of_count;
use crate::parser::ast::{Axis, ExprModel, StepModel, TestModel};
use crate::parser::grammar::{
    axis_at, begins_step, expr_at, later_steps_at, more_steps_at, op_at, operands_at, parse_model,
    path_at, predicates_at, primary_at, step_at, steps_at, test_at, tok, unary_at, union_at,
};
use crate::parser::lexer::{
    lemma_token_at, name_end, number_token, punctuation, token_at, tokens_from, TokenModel,
};
use crate::text::{
    after_last, continues_name, decimal, is_digit, is_white, join, lemma_join_first, span,
    span_back, starts_name, Class,
};
use vstd::prelude::*;

verus! {

/// Whether a name can stand in an expression as it is.
pub open spec fn is_plain_name(name: Seq<char>) -> bool {
    &&& name.len() > 0
    &&& starts_name(name[0]) && !is_white(name[0])
    &&& forall|i: int| 0 < i < name.len() ==> continues_name(#[trigger] name[i])
}

/// A step as it is written: a name, and a place among the like in brackets
/// where it has one.
pub open spec fn written_step(step: (Seq<char>, Option<nat>)) -> Seq<char> {
    match step.1 {
        None => step.0,
        Some(k) => step.0 + "["@ + decimal(k) + "]"@,
    }
}

pub open spec fn written_steps(steps: Seq<(Seq<char>, Option<nat>)>) -> Seq<Seq<char>> {
    Seq::new(steps.len(), |i: int| written_step(steps[i]))
}

/// The step that is so written.
pub open spec fn read_step(step: (Seq<char>, Option<nat>)) -> StepModel {
    StepModel {
        axis: Axis::Child,
        test: TestModel::Named(step.0),
        predicates: match step.1 {
            None => Seq::empty(),
            Some(k) => seq![ExprModel::Number(of_count(k))],
        },
    }
}

pub open spec fn read_steps(steps: Seq<(Seq<char>, Option<nat>)>) -> Seq<StepModel> {
    Seq::new(steps.len(), |i: int| read_step(steps[i]))
}

// ---------------------------------------------------------------------------
// Tokens
// ---------------------------------------------------------------------------

/// What steps are written as from the one at `j` on, a slash before each.
spec fn text_from(steps: Seq<(Seq<char>, Option<nat>)>, j: int) -> Seq<char>
    decreases steps.len() - j,
{
    if j < 0 || j >= steps.len() {
        Seq::empty()
    } else {
        seq!['/'] + written_step(steps[j]) + text_from(steps, j + 1)
    }
}

spec fn step_tokens(step: (Seq<char>, Option<nat>)) -> Seq<TokenModel> {
    match step.1 {
        None => seq![TokenModel::Slash, TokenModel::Name(step.0)],
        Some(k) => seq![
            TokenModel::Slash,
            TokenModel::Name(step.0),
            TokenModel::LeftBracket,
            TokenModel::Number(of_count(k)),
            TokenModel::RightBracket,
        ],
    }
}

spec fn tokens_of(steps: Seq<(Seq<char>, Option<nat>)>, j: int) -> Seq<TokenModel>
    decreases steps.len() - j,
{
    if j < 0 || j >= steps.len() {
        Seq::empty()
    } else {
        step_tokens(steps[j]) + tokens_of(steps, j + 1)
    }
}

proof fn lemma_text_joined(steps: Seq<(Seq<char>, Option<nat>)>, j: int)
    requires
        0 <= j < steps.len(),
    ensures
        "/"@ + join(written_steps(steps).skip(j), "/"@) == text_from(steps, j),
    decreases steps.len() - j,
{
    reveal_strlit("/");
    let all = written_steps(steps).skip(j);
    let first = written_step(steps[j]);
    assert("/"@ =~= seq!['/']);
    if j + 1 < steps.len() {
        lemma_text_joined(steps, j + 1);
        let rest = written_steps(steps).skip(j + 1);
        assert(all =~= seq![first] + rest);
        lemma_join_first(first, rest, "/"@);
        assert("/"@ + join(all, "/"@) =~= text_from(steps, j));
    } else {
        assert(all =~= seq![first]);
        assert(text_from(steps, j + 1) == Seq::<char>::empty());
        assert("/"@ + join(all, "/"@) =~= text_from(steps, j));
    }
}

proof fn lemma_name_ends(s: Seq<char>, i: int, end: int)
    requires
        0 <= i <= end <= s.len(),
        forall|x: int| i <= x < end ==> continues_name(#[trigger] s[x]),
        end < s.len() ==> !continues_name(s[end]) && s[end] != ':',
    ensures
        name_end(s, i) == end,
    decreases end - i,
{
    if i < end {
        lemma_name_ends(s, i + 1, end);
    }
}

proof fn lemma_digits_end(s: Seq<char>, i: int, end: int)
    requires
        0 <= i <= end < s.len(),
        forall|x: int| i <= x < end ==> is_digit(#[trigger] s[x]),
        s[end] == ']',
    ensures
        span(s, i, Class::DigitOrDot) == end,
    decreases end - i,
{
    if i < end {
        lemma_digits_end(s, i + 1, end);
    }
}

/// What a name begins and ends at is read as that name.
proof fn lemma_name_token(s: Seq<char>, i: int, name: Seq<char>)
    requires
        is_plain_name(name),
        0 <= i,
        i + name.len() <= s.len(),
        s.subrange(i, i + name.len()) == name,
        i + name.len() < s.len() ==> s[i + name.len()] == '/' || s[i + name.len()] == '[',
    ensures
        token_at(s, i) == Ok::<(TokenModel, int), Seq<char>>(
            (TokenModel::Name(name), i + name.len()),
        ),
        !is_white(s[i]),
        s[i] != '/',
{
    let end = i + name.len();
    assert(s[i] == name[0]);
    assert forall|x: int| i + 1 <= x < end implies continues_name(#[trigger] s[x]) by {
        assert(s[x] == name[x - i]);
    }
    lemma_name_ends(s, i + 1, end);
    assert(punctuation(s, i) is None);
}

/// What a count begins and ends at is read as that number.
proof fn lemma_count_token(s: Seq<char>, i: int, k: nat)
    requires
        0 <= i,
        i + decimal(k).len() < s.len(),
        s.subrange(i, i + decimal(k).len()) == decimal(k),
        s[i + decimal(k).len()] == ']',
    ensures
        token_at(s, i) == Ok::<(TokenModel, int), Seq<char>>(
            (TokenModel::Number(of_count(k)), i + decimal(k).len()),
        ),
        !is_white(s[i]),
{
    let d = decimal(k);
    let end = i + d.len();
    lemma_count_parses(k);
    assert(s[i] == d[0]);
    assert forall|x: int| i <= x < end implies is_digit(#[trigger] s[x]) by {
        assert(s[x] == d[x - i]);
    }
    lemma_digits_end(s, i, end);
    assert(punctuation(s, i) is None);
    assert(number_token(s, i, end) == Ok::<(TokenModel, int), Seq<char>>(
        (TokenModel::Number(of_count(k)), end),
    ));
}

proof fn lemma_next_token(s: Seq<char>, i: int, token: TokenModel, end: int, rest: Seq<TokenModel>)
    requires
        0 <= i < s.len(),
        !is_white(s[i]),
        token_at(s, i) == Ok::<(TokenModel, int), Seq<char>>((token, end)),
        tokens_from(s, end) == Ok::<Seq<TokenModel>, Seq<char>>(rest),
    ensures
        tokens_from(s, i) == Ok::<Seq<TokenModel>, Seq<char>>(seq![token] + rest),
{
    lemma_token_at(s, i);
}

proof fn lemma_tokens(s: Seq<char>, i: int, steps: Seq<(Seq<char>, Option<nat>)>, j: int)
    requires
        0 <= i <= s.len(),
        0 <= j <= steps.len(),
        forall|x: int| 0 <= x < steps.len() ==> is_plain_name((#[trigger] steps[x]).0),
        s.skip(i) == text_from(steps, j),
    ensures
        tokens_from(s, i) == Ok::<Seq<TokenModel>, Seq<char>>(tokens_of(steps, j)),
    decreases steps.len() - j,
{
    let tail = s.skip(i);
    if j < steps.len() {
        let step = steps[j];
        let name = step.0;
        let w = written_step(step);
        let rest = text_from(steps, j + 1);
        let next = i + 1 + w.len();
        assert(is_plain_name(steps[j].0));
        assert(tail == seq!['/'] + w + rest);
        assert(tail.len() == 1 + w.len() + rest.len());
        assert(s.skip(next) =~= rest) by {
            assert forall|x: int| 0 <= x < rest.len() implies s.skip(next)[x] == rest[x] by {
                assert(tail[1 + w.len() + x] == rest[x]);
            }
        }
        lemma_tokens(s, next, steps, j + 1);
        if next < s.len() {
            assert(s[next] == s.skip(next)[0]);
            assert(s[next] == '/');
        }
        assert(s[i] == tail[0]);
        assert(s.subrange(i + 1, next) =~= w) by {
            assert forall|x: int| 0 <= x < w.len() implies s.subrange(i + 1, next)[x] == w[x] by {
                assert(tail[1 + x] == w[x]);
            }
        }
        let a = i + 1 + name.len();
        let later = tokens_of(steps, j + 1);
        match step.1 {
            None => {
                lemma_name_token(s, i + 1, name);
                lemma_next_token(s, i + 1, TokenModel::Name(name), a, later);
                let from_name = seq![TokenModel::Name(name)] + later;
                lemma_next_token(s, i, TokenModel::Slash, i + 1, from_name);
                assert(seq![TokenModel::Slash] + from_name =~= tokens_of(steps, j));
            },
            Some(k) => {
                reveal_strlit("[");
                reveal_strlit("]");
                let d = decimal(k);
                let b = a + 1 + d.len();
                assert(w.len() == name.len() + 1 + d.len() + 1);
                let part = s.subrange(i + 1, next);
                assert(s.subrange(i + 1, a) =~= name) by {
                    assert forall|x: int| 0 <= x < name.len() implies s.subrange(i + 1, a)[x]
                        == name[x] by {
                        assert(part[x] == w[x]);
                    }
                }
                assert(s[a] == '[') by {
                    assert(part[name.len() as int] == w[name.len() as int]);
                }
                assert(s.subrange(a + 1, b) =~= d) by {
                    assert forall|x: int| 0 <= x < d.len() implies s.subrange(a + 1, b)[x]
                        == d[x] by {
                        assert(part[name.len() + 1 + x] == w[name.len() + 1 + x]);
                    }
                }
                assert(s[b] == ']') by {
                    assert(part[w.len() - 1] == w[w.len() - 1]);
                }
                lemma_name_token(s, i + 1, name);
                lemma_count_token(s, a + 1, k);
                let number = TokenModel::Number(of_count(k));
                lemma_next_token(s, b, TokenModel::RightBracket, b + 1, later);
                let r1 = seq![TokenModel::RightBracket] + later;
                lemma_next_token(s, a + 1, number, b, r1);
                let r2 = seq![number] + r1;
                lemma_next_token(s, a, TokenModel::LeftBracket, a + 1, r2);
                let r3 = seq![TokenModel::LeftBracket] + r2;
                lemma_next_token(s, i + 1, TokenModel::Name(name), a, r3);
                let r4 = seq![TokenModel::Name(name)] + r3;
                lemma_next_token(s, i, TokenModel::Slash, i + 1, r4);
                assert(seq![TokenModel::Slash] + r4 =~= tokens_of(steps, j));
            },
        }
    } else {
        assert(tail.len() == 0);
    }
}

// ---------------------------------------------------------------------------
// Steps
// ---------------------------------------------------------------------------

/// Whether nothing goes on behind an operand: neither an operator nor a
/// part of the operand itself.
spec fn is_end(t: Option<TokenModel>) -> bool {
    t == Some(TokenModel::RightBracket) || t is None
}

/// Where an operand ends, an expression of any level ends too.
proof fn lemma_operand(t: Seq<TokenModel>, p: int, e: ExprModel, q: int, level: nat)
    requires
        level <= 6,
        0 <= p < q <= t.len(),
        unary_at(t, p) == Ok::<(ExprModel, int), Seq<char>>((e, q)),
        is_end(tok(t, q)),
    ensures
        expr_at(t, p, level) == Ok::<(ExprModel, int), Seq<char>>((e, q)),
    decreases 6 - level,
{
    if level < 6 {
        lemma_operand(t, p, e, q, level + 1);
        assert(op_at(t, q, level) is None);
        assert(operands_at(t, e, q, level) == Ok::<(ExprModel, int), Seq<char>>((e, q)));
    }
}

proof fn lemma_place_read(t: Seq<TokenModel>, p: int, k: nat)
    requires
        0 <= p,
        p + 1 < t.len(),
        t[p] == TokenModel::Number(of_count(k)),
        t[p + 1] == TokenModel::RightBracket,
    ensures
        expr_at(t, p, 0) == Ok::<(ExprModel, int), Seq<char>>(
            (ExprModel::Number(of_count(k)), p + 1),
        ),
{
    let e = ExprModel::Number(of_count(k));
    assert(primary_at(t, p) == Ok::<Option<(ExprModel, int)>, Seq<char>>(Some((e, p + 1))));
    assert(predicates_at(t, p + 1) == Ok::<(Seq<ExprModel>, int), Seq<char>>(
        (Seq::empty(), p + 1),
    ));
    assert(more_steps_at(t, p + 1) == Ok::<(Seq<StepModel>, int), Seq<char>>(
        (Seq::empty(), p + 1),
    ));
    assert(path_at(t, p) == Ok::<(ExprModel, int), Seq<char>>((e, p + 1)));
    assert(union_at(t, e, p + 1) == Ok::<(ExprModel, int), Seq<char>>((e, p + 1)));
    lemma_operand(t, p, e, p + 1, 0);
}

proof fn lemma_no_prefix(name: Seq<char>, j: int)
    requires
        is_plain_name(name),
        0 <= j <= name.len(),
    ensures
        span_back(name, j, Class::Not(':')) == 0,
    decreases j,
{
    if j > 0 {
        if j > 1 {
            assert(continues_name(name[j - 1]));
        }
        lemma_no_prefix(name, j - 1);
    }
}

proof fn lemma_step_read(
    t: Seq<TokenModel>,
    p: int,
    steps: Seq<(Seq<char>, Option<nat>)>,
    j: int,
)
    requires
        0 <= p <= t.len(),
        0 <= j < steps.len(),
        is_plain_name(steps[j].0),
        t.skip(p) == tokens_of(steps, j),
    ensures
        step_at(t, p + 1) == Ok::<(StepModel, int), Seq<char>>(
            (read_step(steps[j]), p + step_tokens(steps[j]).len()),
        ),
        p + step_tokens(steps[j]).len() <= t.len(),
        t.skip(p + step_tokens(steps[j]).len()) == tokens_of(steps, j + 1),
        t[p] == TokenModel::Slash,
        t[p + 1] == TokenModel::Name(steps[j].0),
{
    let own = step_tokens(steps[j]);
    let rest = tokens_of(steps, j + 1);
    let tail = t.skip(p);
    let q = p + own.len();
    let name = steps[j].0;
    assert(tail == own + rest);
    assert forall|x: int| 0 <= x < own.len() implies #[trigger] t[p + x] == own[x] by {
        assert(tail[x] == own[x]);
    }
    assert(t.skip(q) =~= rest) by {
        assert forall|x: int| 0 <= x < rest.len() implies t.skip(q)[x] == rest[x] by {
            assert(tail[own.len() + x] == rest[x]);
        }
    }
    if q < t.len() {
        assert(t[q] == t.skip(q)[0]);
        assert(t[q] == TokenModel::Slash);
    }
    assert(t[p + 0] == TokenModel::Slash);
    assert(t[p + 1] == TokenModel::Name(name));
    lemma_no_prefix(name, name.len() as int);
    assert(after_last(name, ':') =~= name);
    assert(predicates_at(t, q) == Ok::<(Seq<ExprModel>, int), Seq<char>>((Seq::empty(), q)));
    match steps[j].1 {
        None => {
            assert(axis_at(t, p + 1) == Ok::<(Axis, int), Seq<char>>((Axis::Child, p + 1)));
            assert(test_at(t, p + 1) == Ok::<(TestModel, int), Seq<char>>(
                (TestModel::Named(name), p + 2),
            ));
        },
        Some(k) => {
            assert(t[p + 2] == TokenModel::LeftBracket);
            assert(t[p + 3] == TokenModel::Number(of_count(k)));
            assert(t[p + 4] == TokenModel::RightBracket);
            assert(axis_at(t, p + 1) == Ok::<(Axis, int), Seq<char>>((Axis::Child, p + 1)));
            assert(test_at(t, p + 1) == Ok::<(TestModel, int), Seq<char>>(
                (TestModel::Named(name), p + 2),
            ));
            lemma_place_read(t, p + 3, k);
            let place = seq![ExprModel::Number(of_count(k))];
            assert(place + Seq::<ExprModel>::empty() =~= place);
            assert(predicates_at(t, p + 2) == Ok::<(Seq<ExprModel>, int), Seq<char>>((place, q)));
        },
    }
}

proof fn lemma_later_read(
    t: Seq<TokenModel>,
    p: int,
    steps: Seq<(Seq<char>, Option<nat>)>,
    j: int,
)
    requires
        0 <= p <= t.len(),
        0 <= j <= steps.len(),
        forall|x: int| 0 <= x < steps.len() ==> is_plain_name((#[trigger] steps[x]).0),
        t.skip(p) == tokens_of(steps, j),
    ensures
        later_steps_at(t, p) == Ok::<(Seq<StepModel>, int), Seq<char>>(
            (read_steps(steps).skip(j), t.len() as int),
        ),
    decreases steps.len() - j,
{
    if j < steps.len() {
        assert(is_plain_name(steps[j].0));
        lemma_step_read(t, p, steps, j);
        let q = p + step_tokens(steps[j]).len();
        lemma_later_read(t, q, steps, j + 1);
        assert(seq![read_step(steps[j])] + read_steps(steps).skip(j + 1) =~= read_steps(
            steps,
        ).skip(j));
    } else {
        assert(t.skip(p).len() == 0);
        assert(read_steps(steps).skip(j) =~= Seq::<StepModel>::empty());
    }
}

proof fn lemma_first_read(t: Seq<TokenModel>, steps: Seq<(Seq<char>, Option<nat>)>)
    requires
        steps.len() > 0,
        forall|x: int| 0 <= x < steps.len() ==> is_plain_name((#[trigger] steps[x]).0),
        t == tokens_of(steps, 0),
    ensures
        steps_at(t, 1) == Ok::<(Seq<StepModel>, int), Seq<char>>(
            (read_steps(steps), t.len() as int),
        ),
        t.len() > 1,
        t[0] == TokenModel::Slash,
        t[1] is Name,
{
    assert(t.skip(0) =~= t);
    assert(is_plain_name(steps[0].0));
    lemma_step_read(t, 0, steps, 0);
    let q = step_tokens(steps[0]).len() as int;
    lemma_later_read(t, q, steps, 1);
    assert(seq![read_step(steps[0])] + read_steps(steps).skip(1) =~= read_steps(steps));
}

proof fn lemma_path_read(t: Seq<TokenModel>, steps: Seq<StepModel>)
    requires
        t.len() > 1,
        t[0] == TokenModel::Slash,
        t[1] is Name,
        steps_at(t, 1) == Ok::<(Seq<StepModel>, int), Seq<char>>((steps, t.len() as int)),
    ensures
        path_at(t, 0) == Ok::<(ExprModel, int), Seq<char>>(
            (ExprModel::Path { absolute: true, steps }, t.len() as int),
        ),
{
    assert(begins_step(tok(t, 1)));
}

proof fn lemma_whole_read(t: Seq<TokenModel>, e: ExprModel)
    requires
        t.len() > 0,
        t[0] == TokenModel::Slash,
        path_at(t, 0) == Ok::<(ExprModel, int), Seq<char>>((e, t.len() as int)),
    ensures
        expr_at(t, 0, 0) == Ok::<(ExprModel, int), Seq<char>>((e, t.len() as int)),
{
    let end = t.len() as int;
    assert(union_at(t, e, end) == Ok::<(ExprModel, int), Seq<char>>((e, end)));
    assert(unary_at(t, 0) == Ok::<(ExprModel, int), Seq<char>>((e, end)));
    lemma_operand(t, 0, e, end, 0);
}

/// A path that is written from the root, name by name, is read as a path of
/// those names, with the places it gives.
pub proof fn law_written_path_reads(steps: Seq<(Seq<char>, Option<nat>)>)
    requires
        steps.len() > 0,
        forall|x: int| 0 <= x < steps.len() ==> is_plain_name((#[trigger] steps[x]).0),
    ensures
        parse_model("/"@ + join(written_steps(steps), "/"@)) == Ok::<ExprModel, Seq<char>>(
            ExprModel::Path { absolute: true, steps: read_steps(steps) },
        ),
{
    let s = "/"@ + join(written_steps(steps), "/"@);
    let t = tokens_of(steps, 0);
    assert(written_steps(steps).skip(0) =~= written_steps(steps));
    lemma_text_joined(steps, 0);
    assert(s.skip(0) =~= s);
    lemma_tokens(s, 0, steps, 0);
    lemma_first_read(t, steps);
    lemma_path_read(t, read_steps(steps));
    lemma_whole_read(t, ExprModel::Path { absolute: true, steps: read_steps(steps) });
}

} // verus!
