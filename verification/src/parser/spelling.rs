//! How an expression is spelled, and that it is read as it is spelled.
//!
//! An expression is spelled with no more parentheses than it needs: operators
//! bind in the order `or`, `and`, `=` and `!=`, `<` `<=` `>` `>=`, `+` and
//! `-`, `*` `div` `mod`, from the loosest to the tightest, and group from the
//! left; a minus sign and `|` bind tighter than all of them.

use crate::parser::ast::{Axis, BinaryOp, ExprModel, StepModel, TestModel};
use crate::parser::grammar::{
    ahead, any_depth, args_at, axis_at, expr_at, is_node_type, later_steps_at, more_steps_at,
    named_axis, op_at, operands_at, parse_model, path_at, predicates_at, primary_at, step_at,
    steps_at, test_at, unary_at, union_at,
};
use crate::parser::lexer::{tokens_from, TokenModel};
use crate::text::after_last;
use vstd::prelude::*;

verus! {

/// How tight an operator binds.
pub open spec fn binds(op: BinaryOp) -> nat {
    match op {
        BinaryOp::Or => 0,
        BinaryOp::And => 1,
        BinaryOp::Equal => 2,
        BinaryOp::NotEqual => 2,
        BinaryOp::Less => 3,
        BinaryOp::LessEqual => 3,
        BinaryOp::Greater => 3,
        BinaryOp::GreaterEqual => 3,
        BinaryOp::Add => 4,
        BinaryOp::Subtract => 4,
        BinaryOp::Multiply => 5,
        BinaryOp::Divide => 5,
        BinaryOp::Modulo => 5,
    }
}

/// The token that an operator is written with.
pub open spec fn sign_of(op: BinaryOp) -> TokenModel {
    match op {
        BinaryOp::Or => TokenModel::Name("or"@),
        BinaryOp::And => TokenModel::Name("and"@),
        BinaryOp::Equal => TokenModel::Equal,
        BinaryOp::NotEqual => TokenModel::NotEqual,
        BinaryOp::Less => TokenModel::Less,
        BinaryOp::LessEqual => TokenModel::LessEqual,
        BinaryOp::Greater => TokenModel::Greater,
        BinaryOp::GreaterEqual => TokenModel::GreaterEqual,
        BinaryOp::Add => TokenModel::Plus,
        BinaryOp::Subtract => TokenModel::Minus,
        BinaryOp::Multiply => TokenModel::Star,
        BinaryOp::Divide => TokenModel::Name("div"@),
        BinaryOp::Modulo => TokenModel::Name("mod"@),
    }
}

/// How an axis is called.
pub open spec fn axis_name(axis: Axis) -> Seq<char> {
    match axis {
        Axis::Child => "child"@,
        Axis::Parent => "parent"@,
        Axis::Self_ => "self"@,
        Axis::Descendant => "descendant"@,
        Axis::DescendantOrSelf => "descendant-or-self"@,
        Axis::Ancestor => "ancestor"@,
        Axis::AncestorOrSelf => "ancestor-or-self"@,
        Axis::Attribute => "attribute"@,
        Axis::Following => "following"@,
        Axis::FollowingSibling => "following-sibling"@,
        Axis::Preceding => "preceding"@,
        Axis::PrecedingSibling => "preceding-sibling"@,
    }
}

/// How tight an expression holds together.
pub open spec fn tightness(e: ExprModel) -> nat {
    match e {
        ExprModel::Binary { op, .. } => binds(op),
        ExprModel::Negate(_) => 6,
        ExprModel::Union(_, _) => 6,
        ExprModel::Path { .. } => 7,
        ExprModel::Filter { .. } => 7,
        _ => 8,
    }
}

/// An expression where one is wanted that holds together at least so tight:
/// in parentheses, where it does not.
pub open spec fn spelled(e: ExprModel, level: nat) -> Seq<TokenModel>
    decreases e, 1nat,
{
    if tightness(e) < level {
        seq![TokenModel::LeftParen] + plain(e) + seq![TokenModel::RightParen]
    } else {
        plain(e)
    }
}

/// An expression without parentheses around it.
pub open spec fn plain(e: ExprModel) -> Seq<TokenModel>
    decreases e, 0nat,
{
    match e {
        ExprModel::Number(n) => seq![TokenModel::Number(n)],
        ExprModel::Literal(s) => seq![TokenModel::Literal(s)],
        ExprModel::Variable(s) => seq![TokenModel::Variable(s)],
        ExprModel::Binary { op, left, right } => spelled(*left, binds(op)) + (seq![sign_of(op)]
            + spelled(*right, binds(op) + 1)),
        ExprModel::Negate(inner) => seq![TokenModel::Minus] + spelled(*inner, 6),
        ExprModel::Union(left, right) => spelled(
            *left,
            if *left is Union {
                6
            } else {
                7
            },
        ) + (seq![TokenModel::Pipe] + spelled(*right, 7)),
        ExprModel::Function { name, args } => seq![TokenModel::Name(name), TokenModel::LeftParen]
            + (if args.len() == 0 {
            seq![TokenModel::RightParen]
        } else {
            args_spelled(args, 0)
        }),
        ExprModel::Path { absolute, steps } => if absolute {
            seq![TokenModel::Slash] + steps_spelled(steps)
        } else {
            steps_spelled(steps)
        },
        ExprModel::Filter { base, predicates, steps } => spelled(*base, 8) + (predicates_spelled(
            predicates,
            0,
        ) + later_spelled(steps, 0)),
    }
}

/// Arguments with commas between them, and a parenthesis behind them.
pub open spec fn args_spelled(args: Seq<ExprModel>, i: int) -> Seq<TokenModel>
    decreases args, args.len() - i,
{
    if 0 <= i < args.len() {
        spelled(args[i], 0) + (if i + 1 < args.len() {
            seq![TokenModel::Comma] + args_spelled(args, i + 1)
        } else {
            seq![TokenModel::RightParen]
        })
    } else {
        Seq::empty()
    }
}

/// Predicates, each in brackets.
pub open spec fn predicates_spelled(predicates: Seq<ExprModel>, i: int) -> Seq<TokenModel>
    decreases predicates, predicates.len() - i,
{
    if 0 <= i < predicates.len() {
        seq![TokenModel::LeftBracket] + (spelled(predicates[i], 0) + (seq![
            TokenModel::RightBracket,
        ] + predicates_spelled(predicates, i + 1)))
    } else {
        Seq::empty()
    }
}

/// What a step looks for.
pub open spec fn test_spelled(test: TestModel) -> TokenModel {
    match test {
        TestModel::Any => TokenModel::Star,
        TestModel::Named(n) => TokenModel::Name(n),
    }
}

/// Where a step leads, without its predicates.
pub open spec fn head_spelled(axis: Axis, test: TestModel) -> Seq<TokenModel> {
    if axis is Self_ && test is Any {
        seq![TokenModel::Dot]
    } else if axis is Parent && test is Any {
        seq![TokenModel::DoubleDot]
    } else if axis is Child {
        seq![test_spelled(test)]
    } else if axis is Attribute {
        seq![TokenModel::At, test_spelled(test)]
    } else {
        seq![TokenModel::Name(axis_name(axis)), TokenModel::DoubleColon, test_spelled(test)]
    }
}

pub open spec fn step_spelled(step: StepModel) -> Seq<TokenModel>
    decreases step,
{
    head_spelled(step.axis, step.test) + predicates_spelled(step.predicates, 0)
}

/// Steps, each behind a slash.
pub open spec fn later_spelled(steps: Seq<StepModel>, i: int) -> Seq<TokenModel>
    decreases steps, steps.len() - i,
{
    if 0 <= i < steps.len() {
        seq![TokenModel::Slash] + (step_spelled(steps[i]) + later_spelled(steps, i + 1))
    } else {
        Seq::empty()
    }
}

/// Steps with slashes between them.
pub open spec fn steps_spelled(steps: Seq<StepModel>) -> Seq<TokenModel>
    decreases steps, steps.len() + 1,
{
    if steps.len() == 0 {
        Seq::empty()
    } else {
        step_spelled(steps[0]) + later_spelled(steps, 1)
    }
}

/// Whether an expression can be written: its paths have steps, the names in
/// them have no prefix, and its functions are not called like a test of a
/// node's kind.
pub open spec fn can_be_written(e: ExprModel) -> bool
    decreases e,
{
    match e {
        ExprModel::Binary { op, left, right } => can_be_written(*left) && can_be_written(*right),
        ExprModel::Negate(inner) => can_be_written(*inner),
        ExprModel::Union(left, right) => can_be_written(*left) && can_be_written(*right),
        ExprModel::Function { name, args } => !is_node_type(name) && all_writable(args),
        ExprModel::Path { absolute, steps } => steps.len() > 0 && steps_writable(steps),
        ExprModel::Filter { base, predicates, steps } => predicates.len() + steps.len() > 0
            && can_be_written(*base) && all_writable(predicates) && steps_writable(steps),
        _ => true,
    }
}

pub open spec fn all_writable(list: Seq<ExprModel>) -> bool
    decreases list,
{
    forall|i: int| 0 <= i < list.len() ==> can_be_written(#[trigger] list[i])
}

pub open spec fn step_writable(step: StepModel) -> bool
    decreases step,
{
    (step.test matches TestModel::Named(n) ==> after_last(n, ':') == n) && all_writable(
        step.predicates,
    )
}

pub open spec fn steps_writable(steps: Seq<StepModel>) -> bool
    decreases steps,
{
    forall|i: int| 0 <= i < steps.len() ==> step_writable(#[trigger] steps[i])
}

/// How tight a token binds what stands before it; what closes an expression
/// does not bind at all.
spec fn pull(token: TokenModel) -> int {
    match token {
        TokenModel::RightParen => -1,
        TokenModel::RightBracket => -1,
        TokenModel::Comma => -1,
        TokenModel::Equal => 2,
        TokenModel::NotEqual => 2,
        TokenModel::Less => 3,
        TokenModel::LessEqual => 3,
        TokenModel::Greater => 3,
        TokenModel::GreaterEqual => 3,
        TokenModel::Plus => 4,
        TokenModel::Minus => 4,
        TokenModel::Star => 5,
        TokenModel::Pipe => 6,
        TokenModel::Name(n) => if n == "or"@ {
            0
        } else if n == "and"@ {
            1
        } else if n == "div"@ || n == "mod"@ {
            5
        } else {
            9
        },
        _ => 9,
    }
}

/// Whether an expression ends before a place: what stands there binds looser
/// than a level.
spec fn stops(t: Seq<TokenModel>, q: int, level: int) -> bool {
    q >= t.len() || pull(t[q]) < level
}

proof fn lemma_signs(t: Seq<TokenModel>, q: int, level: nat)
    requires
        0 <= q <= t.len(),
        level <= 5,
    ensures
        stops(t, q, level as int) ==> op_at(t, q, level) is None,
        forall|op: BinaryOp|
            q < t.len() && t[q] == #[trigger] sign_of(op) ==> pull(t[q]) == binds(op) && (level
                == binds(op) ==> op_at(t, q, level) == Some(op)),
{
    reveal_strlit("or");
    reveal_strlit("and");
    reveal_strlit("div");
    reveal_strlit("mod");
    assert("or"@.len() == 2 && "and"@.len() == 3 && "div"@.len() == 3 && "mod"@.len() == 3);
    assert("and"@[0] == 'a' && "div"@[0] == 'd' && "mod"@[0] == 'm');
}

proof fn lemma_axis_names(axis: Axis)
    ensures
        named_axis(axis_name(axis)) == Ok::<Axis, Seq<char>>(axis),
{
    reveal_strlit("child");
    reveal_strlit("parent");
    reveal_strlit("self");
    reveal_strlit("descendant");
    reveal_strlit("descendant-or-self");
    reveal_strlit("ancestor");
    reveal_strlit("ancestor-or-self");
    reveal_strlit("attribute");
    reveal_strlit("following");
    reveal_strlit("following-sibling");
    reveal_strlit("preceding");
    reveal_strlit("preceding-sibling");
    assert("child"@.len() == 5 && "parent"@.len() == 6 && "self"@.len() == 4);
    assert("descendant"@.len() == 10 && "descendant-or-self"@.len() == 18);
    assert("ancestor"@.len() == 8 && "ancestor-or-self"@.len() == 16);
    assert("attribute"@.len() == 9 && "attribute"@[0] == 'a');
    assert("following"@.len() == 9 && "following"@[0] == 'f');
    assert("following-sibling"@.len() == 17);
    assert("preceding"@.len() == 9 && "preceding"@[0] == 'p');
    assert("preceding-sibling"@.len() == 17);
    assert("following-sibling"@[0] == 'f' && "preceding-sibling"@[0] == 'p');
}

proof fn lemma_split(t: Seq<TokenModel>, p: int, q: int, a: Seq<TokenModel>, b: Seq<TokenModel>)
    requires
        0 <= p <= q <= t.len(),
        t.subrange(p, q) == a + b,
    ensures
        q - p == a.len() + b.len(),
        t.subrange(p, p + a.len()) == a,
        t.subrange(p + a.len(), q) == b,
        a.len() > 0 ==> t[p] == a[0],
        b.len() > 0 ==> t[p + a.len()] == b[0],
{
    let s = t.subrange(p, q);
    assert(s.len() == a.len() + b.len());
    assert(t.subrange(p, p + a.len()) =~= a) by {
        assert forall|i: int| 0 <= i < a.len() implies t[p + i] == a[i] by {
            assert(s[i] == a[i]);
        }
    }
    assert(t.subrange(p + a.len(), q) =~= b) by {
        assert forall|i: int| 0 <= i < b.len() implies t[p + a.len() + i] == b[i] by {
            assert(s[a.len() + i] == b[i]);
        }
    }
    if a.len() > 0 {
        assert(s[0] == a[0]);
    }
    if b.len() > 0 {
        assert(s[a.len() as int] == b[0]);
    }
}

/// An expression is read as it is spelled, at each level.
#[verifier::rlimit(40)]
proof fn lemma_read(t: Seq<TokenModel>, p: int, q: int, e: ExprModel, level: nat)
    requires
        0 <= p <= q <= t.len(),
        level <= 7,
        can_be_written(e),
        t.subrange(p, q) == spelled(e, level),
        stops(
            t,
            q,
            if level <= 5 {
                level as int + 1
            } else {
                level as int
            },
        ),
    ensures
        p < q,
        level <= 5 ==> expr_at(t, p, level) == operands_at(t, e, q, level),
        level == 6 ==> unary_at(t, p) == Ok::<(ExprModel, int), Seq<char>>((e, q)),
        level == 7 ==> path_at(t, p) == Ok::<(ExprModel, int), Seq<char>>((e, q)),
        level == 7 ==> t[p] != TokenModel::Minus,
    decreases q - p, 40 - 2 * level,
{
    if level <= 5 {
        if tightness(e) == level {
            lemma_binary(t, p, q, e, level);
        } else {
            assert(spelled(e, level) == spelled(e, level + 1));
            lemma_read(t, p, q, e, level + 1);
            if level < 5 {
                lemma_signs(t, q, level + 1);
                assert(operands_at(t, e, q, level + 1) == Ok::<(ExprModel, int), Seq<char>>(
                    (e, q),
                ));
            }
            assert(expr_at(t, p, level + 1) == Ok::<(ExprModel, int), Seq<char>>((e, q)));
        }
    } else if level == 6 {
        match e {
            ExprModel::Negate(inner) => {
                let a = seq![TokenModel::Minus];
                lemma_split(t, p, q, a, spelled(*inner, 6));
                lemma_read(t, p + 1, q, *inner, 6);
                assert(unary_at(t, p) == Ok::<(ExprModel, int), Seq<char>>((e, q)));
            },
            _ => {
                if !(e is Union) {
                    assert(spelled(e, 6) == spelled(e, 7));
                }
                lemma_union(t, p, q, e);
                assert(union_at(t, e, q) == Ok::<(ExprModel, int), Seq<char>>((e, q)));
            },
        }
    } else {
        lemma_path(t, p, q, e);
    }
}

proof fn lemma_binary(t: Seq<TokenModel>, p: int, q: int, e: ExprModel, level: nat)
    requires
        0 <= p <= q <= t.len(),
        level <= 5,
        tightness(e) == level,
        can_be_written(e),
        t.subrange(p, q) == spelled(e, level),
        stops(t, q, level as int + 1),
    ensures
        p < q,
        expr_at(t, p, level) == operands_at(t, e, q, level),
    decreases q - p, 39 - 2 * level,
{
    if let ExprModel::Binary { op, left, right } = e {
        let a = spelled(*left, level);
        let b = spelled(*right, level + 1);
        lemma_split(t, p, q, a, seq![sign_of(op)] + b);
        let m = p + a.len();
        lemma_split(t, m, q, seq![sign_of(op)], b);
        lemma_signs(t, m, level);
        lemma_read(t, p, m, *left, level);
        lemma_read(t, m + 1, q, *right, level + 1);
        if level < 5 {
            lemma_signs(t, q, level + 1);
            assert(operands_at(t, *right, q, level + 1) == Ok::<(ExprModel, int), Seq<char>>(
                (*right, q),
            ));
        }
        assert(expr_at(t, m + 1, level + 1) == Ok::<(ExprModel, int), Seq<char>>((*right, q)));
        assert(operands_at(t, *left, m, level) == operands_at(t, e, q, level));
    }
}

/// The operands of `|` are read from the left.
proof fn lemma_union(t: Seq<TokenModel>, p: int, q: int, e: ExprModel)
    requires
        0 <= p <= q <= t.len(),
        can_be_written(e),
        t.subrange(p, q) == spelled(
            e,
            if e is Union {
                6
            } else {
                7
            },
        ),
        stops(t, q, 7),
    ensures
        p < q,
        t[p] != TokenModel::Minus,
        path_at(t, p) matches Ok((first, m)) && ahead(t, p, m) && union_at(t, first, m)
            == union_at(t, e, q),
    decreases q - p, 27nat,
{
    match e {
        ExprModel::Union(left, right) => {
            let a = spelled(
                *left,
                if *left is Union {
                    6
                } else {
                    7
                },
            );
            let b = spelled(*right, 7);
            lemma_split(t, p, q, a, seq![TokenModel::Pipe] + b);
            let m = p + a.len();
            lemma_split(t, m, q, seq![TokenModel::Pipe], b);
            lemma_union(t, p, m, *left);
            lemma_read(t, m + 1, q, *right, 7);
            assert(union_at(t, *left, m) == union_at(t, e, q));
        },
        _ => {
            lemma_read(t, p, q, e, 7);
        },
    }
}

/// What begins a path, or is one.
proof fn lemma_path(t: Seq<TokenModel>, p: int, q: int, e: ExprModel)
    requires
        0 <= p <= q <= t.len(),
        can_be_written(e),
        t.subrange(p, q) == spelled(e, 7),
        stops(t, q, 7),
    ensures
        p < q,
        path_at(t, p) == Ok::<(ExprModel, int), Seq<char>>((e, q)),
        t[p] != TokenModel::Minus,
    decreases q - p, 25nat,
{
    match e {
        ExprModel::Path { absolute, steps } => {
            if absolute {
                lemma_split(t, p, q, seq![TokenModel::Slash], steps_spelled(steps));
                lemma_steps(t, p + 1, q, steps);
            } else {
                lemma_steps(t, p, q, steps);
            }
        },
        ExprModel::Filter { base, predicates, steps } => {
            lemma_filter(t, p, q, *base, predicates, steps);
        },
        _ => {
            assert(spelled(e, 7) == spelled(e, 8));
            lemma_primary(t, p, q, e);
            assert(predicates_at(t, q) == Ok::<(Seq<ExprModel>, int), Seq<char>>(
                (Seq::empty(), q),
            ));
            assert(more_steps_at(t, q) == Ok::<(Seq<StepModel>, int), Seq<char>>(
                (Seq::empty(), q),
            ));
        },
    }
}

proof fn lemma_filter(
    t: Seq<TokenModel>,
    p: int,
    q: int,
    base: ExprModel,
    predicates: Seq<ExprModel>,
    steps: Seq<StepModel>,
)
    requires
        0 <= p <= q <= t.len(),
        can_be_written(base),
        all_writable(predicates),
        steps_writable(steps),
        predicates.len() + steps.len() > 0,
        t.subrange(p, q) == spelled(base, 8) + (predicates_spelled(predicates, 0) + later_spelled(
            steps,
            0,
        )),
        stops(t, q, 7),
    ensures
        p < q,
        path_at(t, p) == Ok::<(ExprModel, int), Seq<char>>(
            (ExprModel::Filter { base: Box::new(base), predicates, steps }, q),
        ),
        t[p] != TokenModel::Minus,
    decreases q - p, 24nat,
{
    let a = spelled(base, 8);
    let b = predicates_spelled(predicates, 0);
    let c = later_spelled(steps, 0);
    lemma_split(t, p, q, a, b + c);
    let m = p + a.len();
    lemma_split(t, m, q, b, c);
    let n = m + b.len();
    lemma_primary(t, p, m, base);
    assert(c.len() > 0 ==> c[0] == TokenModel::Slash);
    assert(c.len() == 0 ==> n == q);
    lemma_predicates(t, m, n, predicates, 0);
    assert(predicates.skip(0) =~= predicates);
    if steps.len() == 0 {
        assert(c.len() == 0);
        assert(steps =~= Seq::empty());
        assert(more_steps_at(t, n) == Ok::<(Seq<StepModel>, int), Seq<char>>((Seq::empty(), n)));
    } else {
        let first = steps_spelled(steps);
        assert(c =~= seq![TokenModel::Slash] + first);
        lemma_split(t, n, q, seq![TokenModel::Slash], first);
        lemma_steps(t, n + 1, q, steps);
        assert(more_steps_at(t, q) == Ok::<(Seq<StepModel>, int), Seq<char>>((Seq::empty(), q)));
        assert(steps + Seq::<StepModel>::empty() =~= steps);
    }
}

/// What stands by itself.
proof fn lemma_primary(t: Seq<TokenModel>, p: int, q: int, e: ExprModel)
    requires
        0 <= p <= q <= t.len(),
        can_be_written(e),
        t.subrange(p, q) == spelled(e, 8),
    ensures
        p < q,
        primary_at(t, p) == Ok::<Option<(ExprModel, int)>, Seq<char>>(Some((e, q))),
        t[p] != TokenModel::Minus,
        t[p] != TokenModel::Slash,
        t[p] != TokenModel::DoubleSlash,
    decreases q - p, 22nat,
{
    if tightness(e) < 8 {
        let inner = plain(e);
        let open = seq![TokenModel::LeftParen];
        let close = seq![TokenModel::RightParen];
        assert(open + inner + close =~= open + (inner + close));
        lemma_split(t, p, q, open, inner + close);
        lemma_split(t, p + 1, q, inner, close);
        assert(spelled(e, 0) == inner);
        lemma_read(t, p + 1, q - 1, e, 0);
        lemma_signs(t, q - 1, 0);
        assert(operands_at(t, e, q - 1, 0) == Ok::<(ExprModel, int), Seq<char>>((e, q - 1)));
    } else {
        let s = plain(e);
        assert(t.subrange(p, q) == s);
        assert(s.len() > 0);
        assert(t[p] == t.subrange(p, q)[0]);
        if let ExprModel::Function { name, args } = e {
            let head = seq![TokenModel::Name(name), TokenModel::LeftParen];
            let tail = if args.len() == 0 {
                seq![TokenModel::RightParen]
            } else {
                args_spelled(args, 0)
            };
            lemma_split(t, p, q, head, tail);
            assert(t[p + 1] == t.subrange(p, p + 2)[1]);
            if args.len() == 0 {
                assert(args =~= Seq::empty());
            } else {
                lemma_args(t, p + 2, q, args, 0);
                assert(args.skip(0) =~= args);
            }
        }
    }
}

proof fn lemma_args(t: Seq<TokenModel>, p: int, q: int, args: Seq<ExprModel>, i: int)
    requires
        0 <= p <= q <= t.len(),
        0 <= i < args.len(),
        all_writable(args),
        t.subrange(p, q) == args_spelled(args, i),
    ensures
        p < q,
        t[p] != TokenModel::RightParen,
        args_at(t, p) == Ok::<(Seq<ExprModel>, int), Seq<char>>((args.skip(i), q)),
    decreases q - p, 45nat,
{
    let a = spelled(args[i], 0);
    let rest = if i + 1 < args.len() {
        seq![TokenModel::Comma] + args_spelled(args, i + 1)
    } else {
        seq![TokenModel::RightParen]
    };
    lemma_split(t, p, q, a, rest);
    let m = p + a.len();
    assert(can_be_written(args[i]));
    lemma_read(t, p, m, args[i], 0);
    lemma_signs(t, m, 0);
    assert(operands_at(t, args[i], m, 0) == Ok::<(ExprModel, int), Seq<char>>((args[i], m)));
    if t[p] == TokenModel::RightParen {
        lemma_no_close(t, p);
    }
    if i + 1 < args.len() {
        lemma_split(t, m, q, seq![TokenModel::Comma], args_spelled(args, i + 1));
        lemma_args(t, m + 1, q, args, i + 1);
    }
    assert(args.skip(i) =~= seq![args[i]] + args.skip(i + 1));
}

/// No expression begins with a closing parenthesis.
proof fn lemma_no_close(t: Seq<TokenModel>, p: int)
    requires
        0 <= p < t.len(),
        t[p] == TokenModel::RightParen,
    ensures
        expr_at(t, p, 0) is Err,
{
    assert(step_at(t, p) is Err);
    assert(steps_at(t, p) is Err);
    assert(path_at(t, p) is Err);
    assert(unary_at(t, p) is Err);
    assert(expr_at(t, p, 6) is Err);
    assert(expr_at(t, p, 5) is Err);
    assert(expr_at(t, p, 4) is Err);
    assert(expr_at(t, p, 3) is Err);
    assert(expr_at(t, p, 2) is Err);
    assert(expr_at(t, p, 1) is Err);
}

proof fn lemma_predicates(t: Seq<TokenModel>, p: int, q: int, predicates: Seq<ExprModel>, i: int)
    requires
        0 <= p <= q <= t.len(),
        0 <= i <= predicates.len(),
        all_writable(predicates),
        t.subrange(p, q) == predicates_spelled(predicates, i),
        q < t.len() ==> t[q] != TokenModel::LeftBracket,
    ensures
        predicates_at(t, p) == Ok::<(Seq<ExprModel>, int), Seq<char>>((predicates.skip(i), q)),
        i < predicates.len() ==> p < q && t[p] == TokenModel::LeftBracket,
        i == predicates.len() ==> p == q,
    decreases q - p, 10nat,
{
    if i < predicates.len() {
        let x = spelled(predicates[i], 0);
        let rest = predicates_spelled(predicates, i + 1);
        let open = seq![TokenModel::LeftBracket];
        let close = seq![TokenModel::RightBracket];
        lemma_split(t, p, q, open, x + (close + rest));
        lemma_split(t, p + 1, q, x, close + rest);
        let m = p + 1 + x.len();
        lemma_split(t, m, q, close, rest);
        assert(can_be_written(predicates[i]));
        lemma_read(t, p + 1, m, predicates[i], 0);
        lemma_signs(t, m, 0);
        assert(operands_at(t, predicates[i], m, 0) == Ok::<(ExprModel, int), Seq<char>>(
            (predicates[i], m),
        ));
        lemma_predicates(t, m + 1, q, predicates, i + 1);
        assert(predicates.skip(i) =~= seq![predicates[i]] + predicates.skip(i + 1));
    } else {
        assert(t.subrange(p, q).len() == 0);
        assert(predicates.skip(i) =~= Seq::empty());
    }
}

proof fn lemma_step(t: Seq<TokenModel>, p: int, q: int, step: StepModel)
    requires
        0 <= p <= q <= t.len(),
        step_writable(step),
        t.subrange(p, q) == step_spelled(step),
        q < t.len() ==> t[q] != TokenModel::LeftBracket && t[q] != TokenModel::LeftParen && t[q]
            != TokenModel::DoubleColon,
    ensures
        p < q,
        step_at(t, p) == Ok::<(StepModel, int), Seq<char>>((step, q)),
        match t[p] {
            TokenModel::Name(_) => p + 1 < t.len() ==> t[p + 1] != TokenModel::LeftParen,
            TokenModel::Star => true,
            TokenModel::At => true,
            TokenModel::Dot => true,
            TokenModel::DoubleDot => true,
            _ => false,
        },
    decreases q - p, 18nat,
{
    let a = head_spelled(step.axis, step.test);
    let b = predicates_spelled(step.predicates, 0);
    lemma_split(t, p, q, a, b);
    let m = p + a.len();
    lemma_predicates(t, m, q, step.predicates, 0);
    assert(step.predicates.skip(0) =~= step.predicates);
    lemma_axis_names(step.axis);
    assert(m < t.len() ==> t[m] != TokenModel::LeftParen && t[m] != TokenModel::DoubleColon);
    if a.len() > 1 {
        assert(t[p + 1] == t.subrange(p, m)[1]);
    }
    if a.len() > 2 {
        assert(t[p + 2] == t.subrange(p, m)[2]);
    }
    if !(step.test is Any && (step.axis is Self_ || step.axis is Parent)) {
        assert(axis_at(t, p) == Ok::<(Axis, int), Seq<char>>((step.axis, m - 1)));
        assert(test_at(t, m - 1) == Ok::<(TestModel, int), Seq<char>>((step.test, m)));
    }
}

proof fn lemma_later(t: Seq<TokenModel>, p: int, q: int, steps: Seq<StepModel>, i: int)
    requires
        0 <= p <= q <= t.len(),
        0 <= i <= steps.len(),
        steps_writable(steps),
        t.subrange(p, q) == later_spelled(steps, i),
        stops(t, q, 7),
    ensures
        later_steps_at(t, p) == Ok::<(Seq<StepModel>, int), Seq<char>>((steps.skip(i), q)),
        p < t.len() ==> t[p] == TokenModel::Slash || pull(t[p]) < 7,
    decreases q - p, 19nat,
{
    if i < steps.len() {
        let a = step_spelled(steps[i]);
        let rest = later_spelled(steps, i + 1);
        lemma_split(t, p, q, seq![TokenModel::Slash], a + rest);
        lemma_split(t, p + 1, q, a, rest);
        let m = p + 1 + a.len();
        lemma_later(t, m, q, steps, i + 1);
        assert(step_writable(steps[i]));
        lemma_step(t, p + 1, m, steps[i]);
        assert(steps.skip(i) =~= seq![steps[i]] + steps.skip(i + 1));
    } else {
        assert(t.subrange(p, q).len() == 0);
        assert(steps.skip(i) =~= Seq::empty());
    }
}

proof fn lemma_steps(t: Seq<TokenModel>, p: int, q: int, steps: Seq<StepModel>)
    requires
        0 <= p <= q <= t.len(),
        steps.len() > 0,
        steps_writable(steps),
        t.subrange(p, q) == steps_spelled(steps),
        stops(t, q, 7),
    ensures
        p < q,
        steps_at(t, p) == Ok::<(Seq<StepModel>, int), Seq<char>>((steps, q)),
        match t[p] {
            TokenModel::Name(_) => p + 1 < t.len() ==> t[p + 1] != TokenModel::LeftParen,
            TokenModel::Star => true,
            TokenModel::At => true,
            TokenModel::Dot => true,
            TokenModel::DoubleDot => true,
            _ => false,
        },
    decreases q - p, 20nat,
{
    let a = step_spelled(steps[0]);
    let rest = later_spelled(steps, 1);
    lemma_split(t, p, q, a, rest);
    let m = p + a.len();
    lemma_later(t, m, q, steps, 1);
    assert(step_writable(steps[0]));
    lemma_step(t, p, m, steps[0]);
    assert(steps =~= seq![steps[0]] + steps.skip(1));
}

/// A text whose tokens spell an expression, with no parentheses but those
/// that it needs, is read as that expression.
pub proof fn law_read_as_spelled(s: Seq<char>, e: ExprModel)
    requires
        can_be_written(e),
        tokens_from(s, 0) == Ok::<Seq<TokenModel>, Seq<char>>(spelled(e, 0)),
    ensures
        parse_model(s) == Ok::<ExprModel, Seq<char>>(e),
{
    let t = spelled(e, 0);
    let q = t.len() as int;
    assert(t.subrange(0, q) =~= t);
    lemma_read(t, 0, q, e, 0);
    lemma_signs(t, q, 0);
    assert(operands_at(t, e, q, 0) == Ok::<(ExprModel, int), Seq<char>>((e, q)));
}

/// Without parentheses the tighter of two operators is below the looser one
/// in the tree, whichever stands first; two that bind alike group from the
/// left.
pub proof fn law_tighter_operators_stand_below(
    s: Seq<char>,
    a: ExprModel,
    first: BinaryOp,
    b: ExprModel,
    second: BinaryOp,
    c: ExprModel,
)
    requires
        can_be_written(a),
        can_be_written(b),
        can_be_written(c),
        tightness(a) >= 6,
        tightness(b) >= 6,
        tightness(c) >= 6,
        tokens_from(s, 0) == Ok::<Seq<TokenModel>, Seq<char>>(
            plain(a) + seq![sign_of(first)] + plain(b) + seq![sign_of(second)] + plain(c),
        ),
    ensures
        binds(first) < binds(second) ==> parse_model(s) == Ok::<ExprModel, Seq<char>>(
            ExprModel::Binary {
                op: first,
                left: Box::new(a),
                right: Box::new(
                    ExprModel::Binary { op: second, left: Box::new(b), right: Box::new(c) },
                ),
            },
        ),
        binds(first) >= binds(second) ==> parse_model(s) == Ok::<ExprModel, Seq<char>>(
            ExprModel::Binary {
                op: second,
                left: Box::new(
                    ExprModel::Binary { op: first, left: Box::new(a), right: Box::new(b) },
                ),
                right: Box::new(c),
            },
        ),
{
    let t = plain(a) + seq![sign_of(first)] + plain(b) + seq![sign_of(second)] + plain(c);
    let (x, y) = (seq![sign_of(first)], seq![sign_of(second)]);
    if binds(first) < binds(second) {
        let inner = ExprModel::Binary { op: second, left: Box::new(b), right: Box::new(c) };
        let e = ExprModel::Binary { op: first, left: Box::new(a), right: Box::new(inner) };
        assert(plain(inner) == plain(b) + (y + plain(c)));
        assert(plain(e) == plain(a) + (x + plain(inner)));
        assert(t =~= plain(e));
        assert(can_be_written(inner));
        law_read_as_spelled(s, e);
    } else {
        let inner = ExprModel::Binary { op: first, left: Box::new(a), right: Box::new(b) };
        let e = ExprModel::Binary { op: second, left: Box::new(inner), right: Box::new(c) };
        assert(plain(inner) == plain(a) + (x + plain(b)));
        assert(plain(e) == plain(inner) + (y + plain(c)));
        assert(t =~= plain(e));
        assert(can_be_written(inner));
        law_read_as_spelled(s, e);
    }
}

/// Steps that others follow at any depth.
proof fn lemma_later_deep(
    t: Seq<TokenModel>,
    p: int,
    m: int,
    q: int,
    a: Seq<StepModel>,
    i: int,
    b: Seq<StepModel>,
)
    requires
        0 <= p <= m < q <= t.len(),
        0 <= i <= a.len(),
        b.len() > 0,
        steps_writable(a),
        steps_writable(b),
        t.subrange(p, m) == later_spelled(a, i),
        t[m] == TokenModel::DoubleSlash,
        t.subrange(m + 1, q) == steps_spelled(b),
        stops(t, q, 7),
    ensures
        later_steps_at(t, p) == Ok::<(Seq<StepModel>, int), Seq<char>>(
            (a.skip(i) + seq![any_depth()] + b, q),
        ),
        t[p] == TokenModel::Slash || t[p] == TokenModel::DoubleSlash,
    decreases a.len() - i,
{
    if i < a.len() {
        let x = step_spelled(a[i]);
        let rest = later_spelled(a, i + 1);
        lemma_split(t, p, m, seq![TokenModel::Slash], x + rest);
        lemma_split(t, p + 1, m, x, rest);
        let n = p + 1 + x.len();
        lemma_later_deep(t, n, m, q, a, i + 1, b);
        assert(step_writable(a[i]));
        lemma_step(t, p + 1, n, a[i]);
        assert(a.skip(i) + seq![any_depth()] + b =~= seq![a[i]] + (a.skip(i + 1) + seq![
            any_depth(),
        ] + b));
    } else {
        assert(t.subrange(p, m).len() == 0);
        let x = step_spelled(b[0]);
        lemma_split(t, m + 1, q, x, later_spelled(b, 1));
        let n = m + 1 + x.len();
        lemma_later(t, n, q, b, 1);
        assert(step_writable(b[0]));
        lemma_step(t, m + 1, n, b[0]);
        assert(a.skip(i) + seq![any_depth()] + b =~= seq![any_depth(), b[0]] + b.skip(1));
    }
}

proof fn lemma_whole(t: Seq<TokenModel>, e: ExprModel)
    requires
        t.len() > 0,
        t[0] != TokenModel::Minus,
        path_at(t, 0) == Ok::<(ExprModel, int), Seq<char>>((e, t.len() as int)),
    ensures
        expr_at(t, 0, 0) == Ok::<(ExprModel, int), Seq<char>>((e, t.len() as int)),
{
    let q = t.len() as int;
    let r = Ok::<(ExprModel, int), Seq<char>>((e, q));
    assert(union_at(t, e, q) == r);
    assert(unary_at(t, 0) == r);
    assert(expr_at(t, 0, 6) == r);
    assert(operands_at(t, e, q, 5) == r);
    assert(expr_at(t, 0, 5) == r);
    assert(operands_at(t, e, q, 4) == r);
    assert(expr_at(t, 0, 4) == r);
    assert(operands_at(t, e, q, 3) == r);
    assert(expr_at(t, 0, 3) == r);
    assert(operands_at(t, e, q, 2) == r);
    assert(expr_at(t, 0, 2) == r);
    assert(operands_at(t, e, q, 1) == r);
    assert(expr_at(t, 0, 1) == r);
    assert(operands_at(t, e, q, 0) == r);
}

/// Two slashes stand for any depth: before a path, and between its steps.
/// One slash by itself is the root, and a test of a node's kind is met by
/// every node.
pub proof fn law_short_forms(
    s: Seq<char>,
    a: Seq<StepModel>,
    b: Seq<StepModel>,
    kind: Seq<char>,
)
    requires
        b.len() > 0,
        steps_writable(a),
        steps_writable(b),
    ensures
        tokens_from(s, 0) == Ok::<Seq<TokenModel>, Seq<char>>(
            seq![TokenModel::DoubleSlash] + steps_spelled(b),
        ) ==> parse_model(s) == Ok::<ExprModel, Seq<char>>(
            ExprModel::Path { absolute: true, steps: seq![every_depth()] + b },
        ),
        a.len() > 0 && tokens_from(s, 0) == Ok::<Seq<TokenModel>, Seq<char>>(
            steps_spelled(a) + (seq![TokenModel::DoubleSlash] + steps_spelled(b)),
        ) ==> parse_model(s) == Ok::<ExprModel, Seq<char>>(
            ExprModel::Path { absolute: false, steps: a + seq![every_depth()] + b },
        ),
        tokens_from(s, 0) == Ok::<Seq<TokenModel>, Seq<char>>(seq![TokenModel::Slash])
            ==> parse_model(s) == Ok::<ExprModel, Seq<char>>(
            ExprModel::Path { absolute: true, steps: Seq::empty() },
        ),
        (kind == "node"@ || kind == "text"@ || kind == "comment"@ || kind
            == "processing-instruction"@) && tokens_from(s, 0) == Ok::<
            Seq<TokenModel>,
            Seq<char>,
        >(seq![TokenModel::Name(kind), TokenModel::LeftParen, TokenModel::RightParen])
            ==> parse_model(s) == Ok::<ExprModel, Seq<char>>(
            ExprModel::Path {
                absolute: false,
                steps: seq![
                    StepModel {
                        axis: Axis::Child,
                        test: TestModel::Any,
                        predicates: Seq::empty(),
                    },
                ],
            },
        ),
{
    if let Ok(t) = tokens_from(s, 0) {
        if t == seq![TokenModel::DoubleSlash] + steps_spelled(b) {
            lemma_deep_first(t, b);
        }
        if a.len() > 0 && t == steps_spelled(a) + (seq![TokenModel::DoubleSlash]
            + steps_spelled(b)) {
            lemma_deep(t, a, b);
        }
        if t == seq![TokenModel::Slash] {
            lemma_root_alone(t);
        }
        if is_node_type(kind) && t == seq![
            TokenModel::Name(kind),
            TokenModel::LeftParen,
            TokenModel::RightParen,
        ] {
            lemma_kind_test(t, kind);
        }
    }
}

proof fn lemma_deep_first(t: Seq<TokenModel>, b: Seq<StepModel>)
    requires
        b.len() > 0,
        steps_writable(b),
        t == seq![TokenModel::DoubleSlash] + steps_spelled(b),
    ensures
        expr_at(t, 0, 0) == Ok::<(ExprModel, int), Seq<char>>(
            (
                ExprModel::Path { absolute: true, steps: seq![any_depth()] + b },
                t.len() as int,
            ),
        ),
{
    let q = t.len() as int;
    assert(t.subrange(0, q) =~= t);
    lemma_split(t, 0, q, seq![TokenModel::DoubleSlash], steps_spelled(b));
    lemma_steps(t, 1, q, b);
    lemma_whole(t, ExprModel::Path { absolute: true, steps: seq![any_depth()] + b });
}

proof fn lemma_root_alone(t: Seq<TokenModel>)
    requires
        t == seq![TokenModel::Slash],
    ensures
        expr_at(t, 0, 0) == Ok::<(ExprModel, int), Seq<char>>(
            (ExprModel::Path { absolute: true, steps: Seq::empty() }, t.len() as int),
        ),
{
    let e = ExprModel::Path { absolute: true, steps: Seq::empty() };
    assert(path_at(t, 0) == Ok::<(ExprModel, int), Seq<char>>((e, 1)));
    lemma_whole(t, e);
}

/// The step to every child.
spec fn every_child() -> StepModel {
    StepModel { axis: Axis::Child, test: TestModel::Any, predicates: Seq::empty() }
}

proof fn lemma_kind_test(t: Seq<TokenModel>, kind: Seq<char>)
    requires
        is_node_type(kind),
        t == seq![TokenModel::Name(kind), TokenModel::LeftParen, TokenModel::RightParen],
    ensures
        expr_at(t, 0, 0) == Ok::<(ExprModel, int), Seq<char>>(
            (ExprModel::Path { absolute: false, steps: seq![every_child()] }, t.len() as int),
        ),
{
    let step = every_child();
    assert(t[0] == TokenModel::Name(kind) && t[1] == TokenModel::LeftParen && t[2]
        == TokenModel::RightParen);
    let none = Seq::<StepModel>::empty();
    assert(predicates_at(t, 3) == Ok::<(Seq<ExprModel>, int), Seq<char>>((Seq::empty(), 3)));
    assert(step_at(t, 0) == Ok::<(StepModel, int), Seq<char>>((step, 3)));
    assert(later_steps_at(t, 3) == Ok::<(Seq<StepModel>, int), Seq<char>>((none, 3)));
    assert(seq![step] + none =~= seq![step]);
    assert(steps_at(t, 0) == Ok::<(Seq<StepModel>, int), Seq<char>>((seq![step], 3)));
    let e = ExprModel::Path { absolute: false, steps: seq![step] };
    assert(path_at(t, 0) == Ok::<(ExprModel, int), Seq<char>>((e, 3)));
    lemma_whole(t, e);
}

/// The step to a node and everything below it.
pub open spec fn every_depth() -> StepModel {
    StepModel { axis: Axis::DescendantOrSelf, test: TestModel::Any, predicates: Seq::empty() }
}

proof fn lemma_steps_deep(t: Seq<TokenModel>, m: int, a: Seq<StepModel>, b: Seq<StepModel>)
    requires
        a.len() > 0,
        b.len() > 0,
        steps_writable(a),
        steps_writable(b),
        0 <= m < t.len(),
        t.subrange(0, m) == steps_spelled(a),
        t[m] == TokenModel::DoubleSlash,
        t.subrange(m + 1, t.len() as int) == steps_spelled(b),
    ensures
        t.len() > 1,
        steps_at(t, 0) == Ok::<(Seq<StepModel>, int), Seq<char>>(
            (a + seq![any_depth()] + b, t.len() as int),
        ),
        match t[0] {
            TokenModel::Name(_) => t[1] != TokenModel::LeftParen,
            TokenModel::Star => true,
            TokenModel::At => true,
            TokenModel::Dot => true,
            TokenModel::DoubleDot => true,
            _ => false,
        },
{
    let q = t.len() as int;
    let x = step_spelled(a[0]);
    lemma_split(t, 0, m, x, later_spelled(a, 1));
    let n = x.len() as int;
    lemma_later_deep(t, n, m, q, a, 1, b);
    assert(step_writable(a[0]));
    lemma_step(t, 0, n, a[0]);
    let later = a.skip(1) + seq![any_depth()] + b;
    assert(a + seq![any_depth()] + b =~= seq![a[0]] + later);
}

proof fn lemma_deep(t: Seq<TokenModel>, a: Seq<StepModel>, b: Seq<StepModel>)
    requires
        a.len() > 0,
        b.len() > 0,
        steps_writable(a),
        steps_writable(b),
        t == steps_spelled(a) + (seq![TokenModel::DoubleSlash] + steps_spelled(b)),
    ensures
        expr_at(t, 0, 0) == Ok::<(ExprModel, int), Seq<char>>(
            (
                ExprModel::Path { absolute: false, steps: a + seq![any_depth()] + b },
                t.len() as int,
            ),
        ),
{
    lemma_around(t, steps_spelled(a), steps_spelled(b));
    lemma_steps_deep(t, steps_spelled(a).len() as int, a, b);
    lemma_relative_whole(t, a + seq![any_depth()] + b);
}

proof fn lemma_around(t: Seq<TokenModel>, x: Seq<TokenModel>, y: Seq<TokenModel>)
    requires
        t == x + (seq![TokenModel::DoubleSlash] + y),
    ensures
        x.len() < t.len(),
        t.subrange(0, x.len() as int) == x,
        t[x.len() as int] == TokenModel::DoubleSlash,
        t.subrange(x.len() as int + 1, t.len() as int) == y,
{
    assert(t.subrange(0, x.len() as int) =~= x);
    assert(t.subrange(x.len() as int + 1, t.len() as int) =~= y);
}

/// A text that is a relative path and nothing else.
proof fn lemma_relative_whole(t: Seq<TokenModel>, steps: Seq<StepModel>)
    requires
        t.len() > 1,
        steps_at(t, 0) == Ok::<(Seq<StepModel>, int), Seq<char>>((steps, t.len() as int)),
        match t[0] {
            TokenModel::Name(_) => t[1] != TokenModel::LeftParen,
            TokenModel::Star => true,
            TokenModel::At => true,
            TokenModel::Dot => true,
            TokenModel::DoubleDot => true,
            _ => false,
        },
    ensures
        expr_at(t, 0, 0) == Ok::<(ExprModel, int), Seq<char>>(
            (ExprModel::Path { absolute: false, steps }, t.len() as int),
        ),
{
    assert(primary_at(t, 0) == Ok::<Option<(ExprModel, int)>, Seq<char>>(None));
    let e = ExprModel::Path { absolute: false, steps };
    assert(path_at(t, 0) == Ok::<(ExprModel, int), Seq<char>>((e, t.len() as int)));
    lemma_whole(t, e);
}

} // verus!
