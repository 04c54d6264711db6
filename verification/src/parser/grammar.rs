//! The grammar.
//!
//! Every function of it reads an expression, or a part of one, from a place
//! in a list of tokens, and gives what it read and the place behind it.

use crate::parser::ast::{
    exprs_model, steps_model, Axis, BinaryOp, Expr, ExprModel, NameTest, Step, StepModel, TestModel,
};
use crate::parser::lexer::{token_models, token_text, tokenize, tokens_from, Token, TokenModel};
use crate::text::{
    after_last, cat2, cat3, cat4, count_text, decimal, past_last, quote, quoted, same, seen,
};
use vstd::prelude::*;

verus! {

/// The token at a place.
pub open spec fn tok(t: Seq<TokenModel>, p: int) -> Option<TokenModel> {
    if 0 <= p < t.len() {
        Some(t[p])
    } else {
        None
    }
}

pub open spec fn found_text(t: Option<TokenModel>) -> Seq<char> {
    match t {
        Some(token) => "Some("@ + token_text(token) + ")"@,
        None => "None"@,
    }
}

pub open spec fn expected(token: TokenModel, found: Option<TokenModel>) -> Seq<char> {
    "expected "@ + token_text(token) + ", found "@ + found_text(found)
}

/// Whether `q` is a place behind `p`.
pub open spec fn ahead(t: Seq<TokenModel>, p: int, q: int) -> bool {
    p < q <= t.len()
}

/// The operator that a token is at a level of precedence. `or` binds
/// loosest, then `and`, equality, comparison, sums and products.
pub open spec fn op_at(t: Seq<TokenModel>, p: int, level: nat) -> Option<BinaryOp> {
    match tok(t, p) {
        None => None,
        Some(token) => if level == 0 {
            if token == TokenModel::Name("or"@) {
                Some(BinaryOp::Or)
            } else {
                None
            }
        } else if level == 1 {
            if token == TokenModel::Name("and"@) {
                Some(BinaryOp::And)
            } else {
                None
            }
        } else if level == 2 {
            match token {
                TokenModel::Equal => Some(BinaryOp::Equal),
                TokenModel::NotEqual => Some(BinaryOp::NotEqual),
                _ => None,
            }
        } else if level == 3 {
            match token {
                TokenModel::Less => Some(BinaryOp::Less),
                TokenModel::LessEqual => Some(BinaryOp::LessEqual),
                TokenModel::Greater => Some(BinaryOp::Greater),
                TokenModel::GreaterEqual => Some(BinaryOp::GreaterEqual),
                _ => None,
            }
        } else if level == 4 {
            match token {
                TokenModel::Plus => Some(BinaryOp::Add),
                TokenModel::Minus => Some(BinaryOp::Subtract),
                _ => None,
            }
        } else {
            match token {
                TokenModel::Star => Some(BinaryOp::Multiply),
                TokenModel::Name(n) => if n == "div"@ {
                    Some(BinaryOp::Divide)
                } else if n == "mod"@ {
                    Some(BinaryOp::Modulo)
                } else {
                    None
                },
                _ => None,
            }
        },
    }
}

pub open spec fn depth(level: nat) -> nat {
    if level < 6 {
        (20 - level) as nat
    } else {
        14
    }
}

/// An expression at a level of precedence: operands of the next level with
/// operators of this one between them, grouped from the left.
pub open spec fn expr_at(t: Seq<TokenModel>, p: int, level: nat) -> Result<
    (ExprModel, int),
    Seq<char>,
>
    decreases t.len() - p, depth(level),
{
    if level >= 6 {
        unary_at(t, p)
    } else {
        match expr_at(t, p, level + 1) {
            Err(e) => Err(e),
            Ok((left, q)) => if ahead(t, p, q) {
                operands_at(t, left, q, level)
            } else {
                Ok((left, q))
            },
        }
    }
}

pub open spec fn operands_at(t: Seq<TokenModel>, left: ExprModel, p: int, level: nat) -> Result<
    (ExprModel, int),
    Seq<char>,
>
    decreases t.len() - p, 30nat,
{
    match op_at(t, p, level) {
        None => Ok((left, p)),
        Some(op) => match expr_at(t, p + 1, level + 1) {
            Err(e) => Err(e),
            Ok((right, q)) => {
                let both = ExprModel::Binary { op, left: Box::new(left), right: Box::new(right) };
                if ahead(t, p, q) {
                    operands_at(t, both, q, level)
                } else {
                    Ok((both, q))
                }
            },
        },
    }
}

pub open spec fn unary_at(t: Seq<TokenModel>, p: int) -> Result<(ExprModel, int), Seq<char>>
    decreases t.len() - p, 13nat,
{
    if tok(t, p) == Some(TokenModel::Minus) {
        match unary_at(t, p + 1) {
            Err(e) => Err(e),
            Ok((inner, q)) => Ok((ExprModel::Negate(Box::new(inner)), q)),
        }
    } else {
        match path_at(t, p) {
            Err(e) => Err(e),
            Ok((left, q)) => if ahead(t, p, q) {
                union_at(t, left, q)
            } else {
                Ok((left, q))
            },
        }
    }
}

pub open spec fn union_at(t: Seq<TokenModel>, left: ExprModel, p: int) -> Result<
    (ExprModel, int),
    Seq<char>,
>
    decreases t.len() - p, 30nat,
{
    if tok(t, p) == Some(TokenModel::Pipe) {
        match path_at(t, p + 1) {
            Err(e) => Err(e),
            Ok((right, q)) => {
                let both = ExprModel::Union(Box::new(left), Box::new(right));
                if ahead(t, p, q) {
                    union_at(t, both, q)
                } else {
                    Ok((both, q))
                }
            },
        }
    } else {
        Ok((left, p))
    }
}

/// The step that `//` stands for.
pub open spec fn any_depth() -> StepModel {
    StepModel { axis: Axis::DescendantOrSelf, test: TestModel::Any, predicates: Seq::empty() }
}

pub open spec fn begins_step(t: Option<TokenModel>) -> bool {
    match t {
        Some(TokenModel::Name(_)) => true,
        Some(TokenModel::Star) => true,
        Some(TokenModel::At) => true,
        Some(TokenModel::Dot) => true,
        Some(TokenModel::DoubleDot) => true,
        _ => false,
    }
}

pub open spec fn path_at(t: Seq<TokenModel>, p: int) -> Result<(ExprModel, int), Seq<char>>
    decreases t.len() - p, 11nat,
{
    if tok(t, p) == Some(TokenModel::DoubleSlash) {
        match steps_at(t, p + 1) {
            Err(e) => Err(e),
            Ok((steps, q)) => Ok(
                (ExprModel::Path { absolute: true, steps: seq![any_depth()] + steps }, q),
            ),
        }
    } else if tok(t, p) == Some(TokenModel::Slash) {
        if begins_step(tok(t, p + 1)) {
            match steps_at(t, p + 1) {
                Err(e) => Err(e),
                Ok((steps, q)) => Ok((ExprModel::Path { absolute: true, steps }, q)),
            }
        } else {
            Ok((ExprModel::Path { absolute: true, steps: Seq::empty() }, p + 1))
        }
    } else {
        match primary_at(t, p) {
            Err(e) => Err(e),
            // a primary expression may begin a path: instance('x')/a/b
            Ok(Some((base, q))) => if !ahead(t, p, q) {
                Ok((base, q))
            } else {
                match predicates_at(t, q) {
                    Err(e) => Err(e),
                    Ok((predicates, r)) => if !ahead(t, p, r) {
                        Ok((base, r))
                    } else {
                        match more_steps_at(t, r) {
                            Err(e) => Err(e),
                            Ok((steps, s)) => if predicates.len() == 0 && steps.len() == 0 {
                                Ok((base, s))
                            } else {
                                Ok(
                                    (
                                        ExprModel::Filter {
                                            base: Box::new(base),
                                            predicates,
                                            steps,
                                        },
                                        s,
                                    ),
                                )
                            },
                        }
                    },
                }
            },
            Ok(None) => match steps_at(t, p) {
                Err(e) => Err(e),
                Ok((steps, q)) => Ok((ExprModel::Path { absolute: false, steps }, q)),
            },
        }
    }
}

pub open spec fn is_node_type(name: Seq<char>) -> bool {
    name == "node"@ || name == "text"@ || name == "comment"@ || name == "processing-instruction"@
}

/// A primary expression, when the next tokens are one: a literal, a number,
/// a variable, a parenthesised expression, or a function call. A name
/// followed by `(` is a function call unless it is a node type test, which
/// XPath spells the same way.
pub open spec fn primary_at(t: Seq<TokenModel>, p: int) -> Result<
    Option<(ExprModel, int)>,
    Seq<char>,
>
    decreases t.len() - p, 10nat,
{
    match tok(t, p) {
        Some(TokenModel::Number(n)) => Ok(Some((ExprModel::Number(n), p + 1))),
        Some(TokenModel::Literal(s)) => Ok(Some((ExprModel::Literal(s), p + 1))),
        Some(TokenModel::Variable(s)) => Ok(Some((ExprModel::Variable(s), p + 1))),
        Some(TokenModel::LeftParen) => match expr_at(t, p + 1, 0) {
            Err(e) => Err(e),
            Ok((inner, q)) => if tok(t, q) == Some(TokenModel::RightParen) {
                Ok(Some((inner, q + 1)))
            } else {
                Err(expected(TokenModel::RightParen, tok(t, q)))
            },
        },
        Some(TokenModel::Name(name)) => if tok(t, p + 1) == Some(TokenModel::LeftParen)
            && !is_node_type(name) {
            if tok(t, p + 2) == Some(TokenModel::RightParen) {
                Ok(Some((ExprModel::Function { name, args: Seq::empty() }, p + 3)))
            } else {
                match args_at(t, p + 2) {
                    Err(e) => Err(e),
                    Ok((args, q)) => Ok(Some((ExprModel::Function { name, args }, q))),
                }
            }
        } else {
            Ok(None)
        },
        _ => Ok(None),
    }
}

/// A list with one more before it.
pub open spec fn before<T>(first: Seq<T>, rest: Result<(Seq<T>, int), Seq<char>>) -> Result<
    (Seq<T>, int),
    Seq<char>,
> {
    match rest {
        Err(e) => Err(e),
        Ok((list, q)) => Ok((first + list, q)),
    }
}

/// The arguments of a call, up to the parenthesis that closes it.
pub open spec fn args_at(t: Seq<TokenModel>, p: int) -> Result<(Seq<ExprModel>, int), Seq<char>>
    decreases t.len() - p, 25nat,
{
    match expr_at(t, p, 0) {
        Err(e) => Err(e),
        Ok((arg, q)) => if tok(t, q) == Some(TokenModel::Comma) && p < q {
            before(seq![arg], args_at(t, q + 1))
        } else if tok(t, q) == Some(TokenModel::RightParen) {
            Ok((seq![arg], q + 1))
        } else {
            Err(expected(TokenModel::RightParen, tok(t, q)))
        },
    }
}

pub open spec fn predicates_at(t: Seq<TokenModel>, p: int) -> Result<
    (Seq<ExprModel>, int),
    Seq<char>,
>
    decreases t.len() - p, 5nat,
{
    if tok(t, p) == Some(TokenModel::LeftBracket) {
        match expr_at(t, p + 1, 0) {
            Err(e) => Err(e),
            Ok((predicate, q)) => if tok(t, q) == Some(TokenModel::RightBracket) && p < q {
                before(seq![predicate], predicates_at(t, q + 1))
            } else {
                Err(expected(TokenModel::RightBracket, tok(t, q)))
            },
        }
    } else {
        Ok((Seq::empty(), p))
    }
}

/// The steps after a slash that follows a primary expression.
pub open spec fn more_steps_at(t: Seq<TokenModel>, p: int) -> Result<
    (Seq<StepModel>, int),
    Seq<char>,
>
    decreases t.len() - p, 6nat,
{
    let double = tok(t, p) == Some(TokenModel::DoubleSlash);
    if double || tok(t, p) == Some(TokenModel::Slash) {
        match steps_at(t, p + 1) {
            Err(e) => Err(e),
            Ok((steps, q)) => {
                let first = if double {
                    seq![any_depth()] + steps
                } else {
                    steps
                };
                if ahead(t, p, q) {
                    before(first, more_steps_at(t, q))
                } else {
                    Ok((first, q))
                }
            },
        }
    } else {
        Ok((Seq::empty(), p))
    }
}

pub open spec fn steps_at(t: Seq<TokenModel>, p: int) -> Result<(Seq<StepModel>, int), Seq<char>>
    decreases t.len() - p, 9nat,
{
    match step_at(t, p) {
        Err(e) => Err(e),
        Ok((step, q)) => if ahead(t, p, q) {
            before(seq![step], later_steps_at(t, q))
        } else {
            Ok((seq![step], q))
        },
    }
}

pub open spec fn later_steps_at(t: Seq<TokenModel>, p: int) -> Result<
    (Seq<StepModel>, int),
    Seq<char>,
>
    decreases t.len() - p, 9nat,
{
    let double = tok(t, p) == Some(TokenModel::DoubleSlash);
    if double || tok(t, p) == Some(TokenModel::Slash) {
        match step_at(t, p + 1) {
            Err(e) => Err(e),
            Ok((step, q)) => {
                let first = if double {
                    seq![any_depth(), step]
                } else {
                    seq![step]
                };
                if ahead(t, p, q) {
                    before(first, later_steps_at(t, q))
                } else {
                    Ok((first, q))
                }
            },
        }
    } else {
        Ok((Seq::empty(), p))
    }
}

pub open spec fn named_axis(name: Seq<char>) -> Result<Axis, Seq<char>> {
    if name == "child"@ {
        Ok(Axis::Child)
    } else if name == "parent"@ {
        Ok(Axis::Parent)
    } else if name == "self"@ {
        Ok(Axis::Self_)
    } else if name == "descendant"@ {
        Ok(Axis::Descendant)
    } else if name == "descendant-or-self"@ {
        Ok(Axis::DescendantOrSelf)
    } else if name == "ancestor"@ {
        Ok(Axis::Ancestor)
    } else if name == "ancestor-or-self"@ {
        Ok(Axis::AncestorOrSelf)
    } else if name == "attribute"@ {
        Ok(Axis::Attribute)
    } else if name == "following"@ {
        Ok(Axis::Following)
    } else if name == "following-sibling"@ {
        Ok(Axis::FollowingSibling)
    } else if name == "preceding"@ {
        Ok(Axis::Preceding)
    } else if name == "preceding-sibling"@ {
        Ok(Axis::PrecedingSibling)
    } else {
        Err("unsupported axis '"@ + name + "'"@)
    }
}

/// The axis that a step names or takes, and where its test begins.
pub open spec fn axis_at(t: Seq<TokenModel>, p: int) -> Result<(Axis, int), Seq<char>> {
    match tok(t, p) {
        Some(TokenModel::At) => Ok((Axis::Attribute, p + 1)),
        Some(TokenModel::Name(name)) => if tok(t, p + 1) == Some(TokenModel::DoubleColon) {
            match named_axis(name) {
                Ok(axis) => Ok((axis, p + 2)),
                Err(e) => Err(e),
            }
        } else {
            Ok((Axis::Child, p))
        },
        _ => Ok((Axis::Child, p)),
    }
}

/// The test of a step, and where its predicates begin.
pub open spec fn test_at(t: Seq<TokenModel>, p: int) -> Result<(TestModel, int), Seq<char>> {
    match tok(t, p) {
        Some(TokenModel::Star) => Ok((TestModel::Any, p + 1)),
        Some(TokenModel::Name(name)) => if is_node_type(name) && tok(t, p + 1) == Some(
            TokenModel::LeftParen,
        ) {
            if tok(t, p + 2) == Some(TokenModel::RightParen) {
                Ok((TestModel::Any, p + 3))
            } else {
                Err(expected(TokenModel::RightParen, tok(t, p + 2)))
            }
        } else {
            Ok((TestModel::Named(after_last(name, ':')), p + 1))
        },
        other => Err("expected a node test, found "@ + found_text(other)),
    }
}

pub open spec fn step_at(t: Seq<TokenModel>, p: int) -> Result<(StepModel, int), Seq<char>>
    decreases t.len() - p, 8nat,
{
    let short = match tok(t, p) {
        Some(TokenModel::Dot) => Some(Axis::Self_),
        Some(TokenModel::DoubleDot) => Some(Axis::Parent),
        _ => None,
    };
    let head = match short {
        Some(axis) => Ok((axis, TestModel::Any, p + 1)),
        None => match axis_at(t, p) {
            Err(e) => Err(e),
            Ok((axis, q)) => match test_at(t, q) {
                Err(e) => Err(e),
                Ok((test, r)) => Ok((axis, test, r)),
            },
        },
    };
    match head {
        Err(e) => Err(e),
        Ok((axis, test, q)) => match predicates_at(t, q) {
            Err(e) => Err(e),
            Ok((predicates, r)) => Ok((StepModel { axis, test, predicates }, r)),
        },
    }
}

/// The expression that a text writes, or what is wrong with it.
pub open spec fn parse_model(s: Seq<char>) -> Result<ExprModel, Seq<char>> {
    match tokens_from(s, 0) {
        Err(e) => Err(e),
        Ok(t) => match expr_at(t, 0, 0) {
            Err(e) => Err(e),
            Ok((expr, p)) => if p < t.len() {
                Err(
                    "unexpected trailing input in "@ + quoted(s) + " at token "@ + decimal(
                        p as nat,
                    ),
                )
            } else {
                Ok(expr)
            },
        },
    }
}

// ---------------------------------------------------------------------------
// Reading
// ---------------------------------------------------------------------------

pub open spec fn parsed<T: View>(r: Result<(T, usize), String>) -> Result<(T::V, int), Seq<char>> {
    match r {
        Ok((v, q)) => Ok((v@, q as int)),
        Err(e) => Err(e@),
    }
}

pub open spec fn parsed_exprs(r: Result<(Vec<Expr>, usize), String>) -> Result<
    (Seq<ExprModel>, int),
    Seq<char>,
> {
    match r {
        Ok((v, q)) => Ok((exprs_model(v), q as int)),
        Err(e) => Err(e@),
    }
}

pub open spec fn parsed_steps(r: Result<(Vec<Step>, usize), String>) -> Result<
    (Seq<StepModel>, int),
    Seq<char>,
> {
    match r {
        Ok((v, q)) => Ok((steps_model(v), q as int)),
        Err(e) => Err(e@),
    }
}

pub open spec fn expr_models(s: Seq<Expr>) -> Seq<ExprModel> {
    Seq::new(s.len(), |i: int| s[i]@)
}

pub open spec fn step_models(s: Seq<Step>) -> Seq<StepModel> {
    Seq::new(s.len(), |i: int| s[i]@)
}

pub proof fn lemma_models(v: Vec<Expr>)
    ensures
        exprs_model(v) == expr_models(v@),
{
    assert(exprs_model(v) =~= expr_models(v@));
}

pub proof fn lemma_step_models(v: Vec<Step>)
    ensures
        steps_model(v) == step_models(v@),
{
    assert(steps_model(v) =~= step_models(v@));
}

proof fn lemma_before<T>(a: Seq<T>, b: Seq<T>, rest: Result<(Seq<T>, int), Seq<char>>)
    ensures
        before(a, before(b, rest)) == before(a + b, rest),
{
    if let Ok((list, _)) = rest {
        assert(a + (b + list) == a + b + list);
    }
}

fn at(tokens: &Vec<Token>, p: usize) -> (r: Option<&Token>)
    ensures
        match r {
            Some(token) => p < tokens@.len() && tok(token_models(tokens@), p as int) == Some(
                token@,
            ),
            None => p >= tokens@.len() && tok(token_models(tokens@), p as int) is None,
        },
        tokens@.len() <= usize::MAX,
{
    if p < tokens.len() {
        Some(&tokens[p])
    } else {
        None
    }
}

fn found(token: Option<&Token>) -> (r: String)
    ensures
        r@ == found_text(
            match token {
                Some(t) => Some(t@),
                None => None,
            },
        ),
{
    match token {
        Some(t) => cat3("Some(", t.text().as_str(), ")"),
        None => "None".to_string(),
    }
}

fn mismatch(token: Token, tokens: &Vec<Token>, p: usize) -> (r: String)
    ensures
        r@ == expected(token@, tok(token_models(tokens@), p as int)),
{
    cat4("expected ", token.text().as_str(), ", found ", found(at(tokens, p)).as_str())
}

fn operator(tokens: &Vec<Token>, p: usize, level: u8) -> (r: Option<BinaryOp>)
    ensures
        r == op_at(token_models(tokens@), p as int, level as nat),
        r is Some ==> p < tokens@.len() <= usize::MAX,
{
    let token = match at(tokens, p) {
        None => {
            return None;
        },
        Some(token) => token,
    };
    if level == 0 {
        match token {
            Token::Name(n) => if same(n.as_str(), "or") {
                Some(BinaryOp::Or)
            } else {
                None
            },
            _ => None,
        }
    } else if level == 1 {
        match token {
            Token::Name(n) => if same(n.as_str(), "and") {
                Some(BinaryOp::And)
            } else {
                None
            },
            _ => None,
        }
    } else if level == 2 {
        match token {
            Token::Equal => Some(BinaryOp::Equal),
            Token::NotEqual => Some(BinaryOp::NotEqual),
            _ => None,
        }
    } else if level == 3 {
        match token {
            Token::Less => Some(BinaryOp::Less),
            Token::LessEqual => Some(BinaryOp::LessEqual),
            Token::Greater => Some(BinaryOp::Greater),
            Token::GreaterEqual => Some(BinaryOp::GreaterEqual),
            _ => None,
        }
    } else if level == 4 {
        match token {
            Token::Plus => Some(BinaryOp::Add),
            Token::Minus => Some(BinaryOp::Subtract),
            _ => None,
        }
    } else {
        match token {
            Token::Star => Some(BinaryOp::Multiply),
            Token::Name(n) => if same(n.as_str(), "div") {
                Some(BinaryOp::Divide)
            } else if same(n.as_str(), "mod") {
                Some(BinaryOp::Modulo)
            } else {
                None
            },
            _ => None,
        }
    }
}

fn parse_level(tokens: &Vec<Token>, p: usize, level: u8) -> (r: Result<(Expr, usize), String>)
    requires
        p <= tokens@.len(),
        level <= 6,
    ensures
        parsed(r) == expr_at(token_models(tokens@), p as int, level as nat),
        r matches Ok((_, q)) ==> p < q <= tokens@.len(),
    decreases tokens@.len() - p, depth(level as nat),
{
    if level >= 6 {
        return parse_unary(tokens, p);
    }
    let ghost t = token_models(tokens@);
    let (mut left, mut q) = match parse_level(tokens, p, level + 1) {
        Err(e) => {
            return Err(e);
        },
        Ok((left, q)) => (left, q),
    };
    loop
        invariant
            t == token_models(tokens@),
            p < q <= tokens@.len(),
            level < 6,
            expr_at(t, p as int, level as nat) == operands_at(t, left@, q as int, level as nat),
        decreases tokens@.len() - q,
    {
        let op = match operator(tokens, q, level) {
            None => {
                return Ok((left, q));
            },
            Some(op) => op,
        };
        match parse_level(tokens, q + 1, level + 1) {
            Err(e) => {
                return Err(e);
            },
            Ok((right, next)) => {
                left = Expr::Binary { op, left: Box::new(left), right: Box::new(right) };
                q = next;
            },
        }
    }
}

fn parse_unary(tokens: &Vec<Token>, p: usize) -> (r: Result<(Expr, usize), String>)
    requires
        p <= tokens@.len(),
    ensures
        parsed(r) == unary_at(token_models(tokens@), p as int),
        r matches Ok((_, q)) ==> p < q <= tokens@.len(),
    decreases tokens@.len() - p, 13nat,
{
    let ghost t = token_models(tokens@);
    if let Some(Token::Minus) = at(tokens, p) {
        return match parse_unary(tokens, p + 1) {
            Err(e) => Err(e),
            Ok((inner, q)) => Ok((Expr::Negate(Box::new(inner)), q)),
        };
    }
    let (mut left, mut q) = match parse_path(tokens, p) {
        Err(e) => {
            return Err(e);
        },
        Ok((left, q)) => (left, q),
    };
    loop
        invariant
            t == token_models(tokens@),
            p < q <= tokens@.len(),
            unary_at(t, p as int) == union_at(t, left@, q as int),
        decreases tokens@.len() - q,
    {
        if let Some(Token::Pipe) = at(tokens, q) {
            match parse_path(tokens, q + 1) {
                Err(e) => {
                    return Err(e);
                },
                Ok((right, next)) => {
                    left = Expr::Union(Box::new(left), Box::new(right));
                    q = next;
                },
            }
        } else {
            return Ok((left, q));
        }
    }
}

fn any_step() -> (r: Step)
    ensures
        r@ == any_depth(),
{
    let r = Step { axis: Axis::DescendantOrSelf, test: NameTest::Any, predicates: Vec::new() };
    proof {
        lemma_models(r.predicates);
        assert(exprs_model(r.predicates) == Seq::<ExprModel>::empty());
    }
    r
}

fn at_step_start(tokens: &Vec<Token>, p: usize) -> (r: bool)
    ensures
        r == begins_step(tok(token_models(tokens@), p as int)),
{
    match at(tokens, p) {
        Some(Token::Name(_)) => true,
        Some(Token::Star) => true,
        Some(Token::At) => true,
        Some(Token::Dot) => true,
        Some(Token::DoubleDot) => true,
        _ => false,
    }
}

fn parse_path(tokens: &Vec<Token>, p: usize) -> (r: Result<(Expr, usize), String>)
    requires
        p <= tokens@.len(),
    ensures
        parsed(r) == path_at(token_models(tokens@), p as int),
        r matches Ok((_, q)) ==> p < q <= tokens@.len(),
    decreases tokens@.len() - p, 11nat,
{
    let ghost t = token_models(tokens@);
    if let Some(Token::DoubleSlash) = at(tokens, p) {
        return match parse_relative_steps(tokens, p + 1) {
            Err(e) => Err(e),
            Ok((mut rest, q)) => {
                let ghost tail = rest;
                let mut steps: Vec<Step> = Vec::new();
                steps.push(any_step());
                steps.append(&mut rest);
                proof {
                    lemma_step_models(steps);
                    lemma_step_models(tail);
                    assert(step_models(steps@) == seq![any_depth()] + step_models(tail@));
                }
                Ok((Expr::Path { absolute: true, steps }, q))
            },
        };
    }
    if let Some(Token::Slash) = at(tokens, p) {
        if at_step_start(tokens, p + 1) {
            return match parse_relative_steps(tokens, p + 1) {
                Err(e) => Err(e),
                Ok((steps, q)) => Ok((Expr::Path { absolute: true, steps }, q)),
            };
        }
        let steps: Vec<Step> = Vec::new();
        proof {
            lemma_step_models(steps);
            assert(steps_model(steps) == Seq::<StepModel>::empty());
        }
        return Ok((Expr::Path { absolute: true, steps }, p + 1));
    }
    match try_parse_primary(tokens, p) {
        Err(e) => Err(e),
        Ok(Some((base, q))) => match parse_predicates(tokens, q) {
            Err(e) => Err(e),
            Ok((predicates, r)) => match parse_more_steps(tokens, r) {
                Err(e) => Err(e),
                Ok((steps, s)) => {
                    proof {
                        lemma_models(predicates);
                        lemma_step_models(steps);
                    }
                    if predicates.len() == 0 && steps.len() == 0 {
                        Ok((base, s))
                    } else {
                        Ok((Expr::Filter { base: Box::new(base), predicates, steps }, s))
                    }
                },
            },
        },
        Ok(None) => match parse_relative_steps(tokens, p) {
            Err(e) => Err(e),
            Ok((steps, q)) => Ok((Expr::Path { absolute: false, steps }, q)),
        },
    }
}

fn names_node_type(name: &str) -> (r: bool)
    ensures
        r == is_node_type(name@),
{
    same(name, "node") || same(name, "text") || same(name, "comment") || same(
        name,
        "processing-instruction",
    )
}

pub open spec fn parsed_maybe(r: Result<Option<(Expr, usize)>, String>) -> Result<
    Option<(ExprModel, int)>,
    Seq<char>,
> {
    match r {
        Ok(Some((v, q))) => Ok(Some((v@, q as int))),
        Ok(None) => Ok(None),
        Err(e) => Err(e@),
    }
}

fn try_parse_primary(tokens: &Vec<Token>, p: usize) -> (r: Result<Option<(Expr, usize)>, String>)
    requires
        p <= tokens@.len(),
    ensures
        parsed_maybe(r) == primary_at(token_models(tokens@), p as int),
        r matches Ok(Some((_, q))) ==> p < q <= tokens@.len(),
    decreases tokens@.len() - p, 10nat,
{
    let ghost t = token_models(tokens@);
    let len = tokens.len();
    match at(tokens, p) {
        Some(Token::Number(n)) => Ok(Some((Expr::Number(*n), p + 1))),
        Some(Token::Literal(s)) => Ok(Some((Expr::Literal(s.clone()), p + 1))),
        Some(Token::Variable(s)) => Ok(Some((Expr::Variable(s.clone()), p + 1))),
        Some(Token::LeftParen) => match parse_level(tokens, p + 1, 0) {
            Err(e) => Err(e),
            Ok((inner, q)) => {
                if let Some(Token::RightParen) = at(tokens, q) {
                    Ok(Some((inner, q + 1)))
                } else {
                    Err(mismatch(Token::RightParen, tokens, q))
                }
            },
        },
        Some(Token::Name(name)) => {
            let call = match at(tokens, p + 1) {
                Some(Token::LeftParen) => !names_node_type(name.as_str()),
                _ => false,
            };
            if !call {
                return Ok(None);
            }
            if let Some(Token::RightParen) = at(tokens, p + 2) {
                let args: Vec<Expr> = Vec::new();
                proof {
                    lemma_models(args);
                    assert(exprs_model(args) == Seq::<ExprModel>::empty());
                }
                return Ok(Some((Expr::Function { name: name.clone(), args }, p + 3)));
            }
            match parse_args(tokens, p + 2) {
                Err(e) => Err(e),
                Ok((args, q)) => Ok(Some((Expr::Function { name: name.clone(), args }, q))),
            }
        },
        _ => Ok(None),
    }
}

fn parse_args(tokens: &Vec<Token>, p: usize) -> (r: Result<(Vec<Expr>, usize), String>)
    requires
        p <= tokens@.len(),
    ensures
        parsed_exprs(r) == args_at(token_models(tokens@), p as int),
        r matches Ok((_, q)) ==> p < q <= tokens@.len(),
    decreases tokens@.len() - p, 25nat,
{
    let ghost t = token_models(tokens@);
    let mut out: Vec<Expr> = Vec::new();
    let mut q: usize = p;
    let ghost all = args_at(t, p as int);
    proof {
        assert(expr_models(out@) == Seq::<ExprModel>::empty());
        if let Ok((list, _)) = all {
            assert(Seq::<ExprModel>::empty() + list == list);
        }
    }
    loop
        invariant
            t == token_models(tokens@),
            p <= q <= tokens@.len(),
            all == args_at(t, p as int),
            all == before(expr_models(out@), args_at(t, q as int)),
        decreases tokens@.len() - q,
    {
        let (arg, next) = match parse_level(tokens, q, 0) {
            Err(e) => {
                return Err(e);
            },
            Ok((arg, next)) => (arg, next),
        };
        let ghost was = out@;
        let ghost model = arg@;
        out.push(arg);
        assert(expr_models(out@) == expr_models(was) + seq![model]);
        if let Some(Token::Comma) = at(tokens, next) {
            proof {
                lemma_before(expr_models(was), seq![model], args_at(t, next + 1));
            }
            q = next + 1;
            continue;
        }
        if let Some(Token::RightParen) = at(tokens, next) {
            proof {
                lemma_models(out);
            }
            return Ok((out, next + 1));
        }
        return Err(mismatch(Token::RightParen, tokens, next));
    }
}

fn parse_predicates(tokens: &Vec<Token>, p: usize) -> (r: Result<(Vec<Expr>, usize), String>)
    requires
        p <= tokens@.len(),
    ensures
        parsed_exprs(r) == predicates_at(token_models(tokens@), p as int),
        r matches Ok((_, q)) ==> p <= q <= tokens@.len(),
    decreases tokens@.len() - p, 5nat,
{
    let ghost t = token_models(tokens@);
    let mut out: Vec<Expr> = Vec::new();
    let mut q: usize = p;
    let ghost all = predicates_at(t, p as int);
    proof {
        assert(expr_models(out@) == Seq::<ExprModel>::empty());
        if let Ok((list, _)) = all {
            assert(Seq::<ExprModel>::empty() + list == list);
        }
    }
    loop
        invariant
            t == token_models(tokens@),
            p <= q <= tokens@.len(),
            all == predicates_at(t, p as int),
            all == before(expr_models(out@), predicates_at(t, q as int)),
        decreases tokens@.len() - q,
    {
        if let Some(Token::LeftBracket) = at(tokens, q) {
            let (predicate, next) = match parse_level(tokens, q + 1, 0) {
                Err(e) => {
                    return Err(e);
                },
                Ok((predicate, next)) => (predicate, next),
            };
            if let Some(Token::RightBracket) = at(tokens, next) {
                let ghost was = out@;
                let ghost model = predicate@;
                out.push(predicate);
                proof {
                    assert(expr_models(out@) == expr_models(was) + seq![model]);
                    lemma_before(expr_models(was), seq![model], predicates_at(t, next + 1));
                }
                q = next + 1;
            } else {
                return Err(mismatch(Token::RightBracket, tokens, next));
            }
        } else {
            proof {
                assert(expr_models(out@) + Seq::<ExprModel>::empty() == expr_models(out@));
                lemma_models(out);
            }
            return Ok((out, q));
        }
    }
}

fn parse_more_steps(tokens: &Vec<Token>, p: usize) -> (r: Result<(Vec<Step>, usize), String>)
    requires
        p <= tokens@.len(),
    ensures
        parsed_steps(r) == more_steps_at(token_models(tokens@), p as int),
        r matches Ok((_, q)) ==> p <= q <= tokens@.len(),
    decreases tokens@.len() - p, 6nat,
{
    let ghost t = token_models(tokens@);
    let mut out: Vec<Step> = Vec::new();
    let mut q: usize = p;
    let ghost all = more_steps_at(t, p as int);
    proof {
        assert(step_models(out@) == Seq::<StepModel>::empty());
        if let Ok((list, _)) = all {
            assert(Seq::<StepModel>::empty() + list == list);
        }
    }
    loop
        invariant
            t == token_models(tokens@),
            p <= q <= tokens@.len(),
            all == more_steps_at(t, p as int),
            all == before(step_models(out@), more_steps_at(t, q as int)),
        decreases tokens@.len() - q,
    {
        let double = match at(tokens, q) {
            Some(Token::DoubleSlash) => true,
            _ => false,
        };
        let single = match at(tokens, q) {
            Some(Token::Slash) => true,
            _ => false,
        };
        if !double && !single {
            proof {
                assert(step_models(out@) + Seq::<StepModel>::empty() == step_models(out@));
                lemma_step_models(out);
            }
            return Ok((out, q));
        }
        let ghost was = out@;
        let (mut steps, next) = match parse_relative_steps(tokens, q + 1) {
            Err(e) => {
                return Err(e);
            },
            Ok((steps, next)) => (steps, next),
        };
        let ghost list = steps;
        if double {
            out.push(any_step());
        }
        out.append(&mut steps);
        proof {
            lemma_step_models(list);
            let first = if double {
                seq![any_depth()] + step_models(list@)
            } else {
                step_models(list@)
            };
            assert(step_models(out@) == step_models(was) + first);
            assert(more_steps_at(t, q as int) == before(first, more_steps_at(t, next as int)));
            lemma_before(step_models(was), first, more_steps_at(t, next as int));
        }
        q = next;
    }
}

fn parse_relative_steps(tokens: &Vec<Token>, p: usize) -> (r: Result<(Vec<Step>, usize), String>)
    requires
        p <= tokens@.len(),
    ensures
        parsed_steps(r) == steps_at(token_models(tokens@), p as int),
        r matches Ok((_, q)) ==> p < q <= tokens@.len(),
    decreases tokens@.len() - p, 9nat,
{
    let ghost t = token_models(tokens@);
    let mut out: Vec<Step> = Vec::new();
    let (first, mut q) = match parse_step(tokens, p) {
        Err(e) => {
            return Err(e);
        },
        Ok((first, q)) => (first, q),
    };
    let ghost head = first@;
    out.push(first);
    let ghost all = steps_at(t, p as int);
    assert(step_models(out@) == seq![head]);
    loop
        invariant
            t == token_models(tokens@),
            p < q <= tokens@.len(),
            all == steps_at(t, p as int),
            all == before(step_models(out@), later_steps_at(t, q as int)),
        decreases tokens@.len() - q,
    {
        let double = match at(tokens, q) {
            Some(Token::DoubleSlash) => true,
            _ => false,
        };
        let single = match at(tokens, q) {
            Some(Token::Slash) => true,
            _ => false,
        };
        if !double && !single {
            proof {
                assert(step_models(out@) + Seq::<StepModel>::empty() == step_models(out@));
                lemma_step_models(out);
            }
            return Ok((out, q));
        }
        let ghost was = out@;
        let (step, next) = match parse_step(tokens, q + 1) {
            Err(e) => {
                return Err(e);
            },
            Ok((step, next)) => (step, next),
        };
        let ghost model = step@;
        if double {
            out.push(any_step());
        }
        out.push(step);
        proof {
            let first = if double {
                seq![any_depth(), model]
            } else {
                seq![model]
            };
            assert(step_models(out@) == step_models(was) + first);
            lemma_before(step_models(was), first, later_steps_at(t, next as int));
        }
        q = next;
    }
}

fn axis_named(name: &str) -> (r: Result<Axis, String>)
    ensures
        match r {
            Ok(axis) => named_axis(name@) == Ok::<Axis, Seq<char>>(axis),
            Err(e) => named_axis(name@) == Err::<Axis, Seq<char>>(e@),
        },
{
    if same(name, "child") {
        Ok(Axis::Child)
    } else if same(name, "parent") {
        Ok(Axis::Parent)
    } else if same(name, "self") {
        Ok(Axis::Self_)
    } else if same(name, "descendant") {
        Ok(Axis::Descendant)
    } else if same(name, "descendant-or-self") {
        Ok(Axis::DescendantOrSelf)
    } else if same(name, "ancestor") {
        Ok(Axis::Ancestor)
    } else if same(name, "ancestor-or-self") {
        Ok(Axis::AncestorOrSelf)
    } else if same(name, "attribute") {
        Ok(Axis::Attribute)
    } else if same(name, "following") {
        Ok(Axis::Following)
    } else if same(name, "following-sibling") {
        Ok(Axis::FollowingSibling)
    } else if same(name, "preceding") {
        Ok(Axis::Preceding)
    } else if same(name, "preceding-sibling") {
        Ok(Axis::PrecedingSibling)
    } else {
        // namespace:: is the one axis instances never use, and guessing at
        // it would be worse than saying so
        Err(cat3("unsupported axis '", name, "'"))
    }
}

fn parse_axis(tokens: &Vec<Token>, p: usize) -> (r: Result<(Axis, usize), String>)
    requires
        p <= tokens@.len(),
    ensures
        match r {
            Ok((axis, q)) => axis_at(token_models(tokens@), p as int) == Ok::<
                (Axis, int),
                Seq<char>,
            >((axis, q as int)) && p <= q <= tokens@.len(),
            Err(e) => axis_at(token_models(tokens@), p as int) == Err::<(Axis, int), Seq<char>>(
                e@,
            ),
        },
{
    match at(tokens, p) {
        Some(Token::At) => Ok((Axis::Attribute, p + 1)),
        Some(Token::Name(name)) => {
            if let Some(Token::DoubleColon) = at(tokens, p + 1) {
                match axis_named(name.as_str()) {
                    Ok(axis) => Ok((axis, p + 2)),
                    Err(e) => Err(e),
                }
            } else {
                Ok((Axis::Child, p))
            }
        },
        _ => Ok((Axis::Child, p)),
    }
}

fn parse_test(tokens: &Vec<Token>, p: usize) -> (r: Result<(NameTest, usize), String>)
    requires
        p <= tokens@.len(),
    ensures
        parsed(r) == test_at(token_models(tokens@), p as int),
        r matches Ok((_, q)) ==> p < q <= tokens@.len(),
{
    match at(tokens, p) {
        Some(Token::Star) => Ok((NameTest::Any, p + 1)),
        Some(Token::Name(name)) => {
            if names_node_type(name.as_str()) {
                if let Some(Token::LeftParen) = at(tokens, p + 1) {
                    if let Some(Token::RightParen) = at(tokens, p + 2) {
                        return Ok((NameTest::Any, p + 3));
                    }
                    return Err(mismatch(Token::RightParen, tokens, p + 2));
                }
            }
            Ok((NameTest::Named(past_last(name.as_str(), ':')), p + 1))
        },
        other => Err(cat2("expected a node test, found ", found(other).as_str())),
    }
}

fn parse_step(tokens: &Vec<Token>, p: usize) -> (r: Result<(Step, usize), String>)
    requires
        p <= tokens@.len(),
    ensures
        parsed(r) == step_at(token_models(tokens@), p as int),
        r matches Ok((_, q)) ==> p < q <= tokens@.len(),
    decreases tokens@.len() - p, 8nat,
{
    let ghost t = token_models(tokens@);
    let short = match at(tokens, p) {
        Some(Token::Dot) => Some(Axis::Self_),
        Some(Token::DoubleDot) => Some(Axis::Parent),
        _ => None,
    };
    let (axis, test, q) = match short {
        Some(axis) => (axis, NameTest::Any, p + 1),
        None => {
            let (axis, q) = match parse_axis(tokens, p) {
                Err(e) => {
                    return Err(e);
                },
                Ok((axis, q)) => (axis, q),
            };
            match parse_test(tokens, q) {
                Err(e) => {
                    return Err(e);
                },
                Ok((test, next)) => (axis, test, next),
            }
        },
    };
    match parse_predicates(tokens, q) {
        Err(e) => Err(e),
        Ok((predicates, next)) => Ok((Step { axis, test, predicates }, next)),
    }
}

/// Parse an expression.
pub fn parse(expression: &str) -> (r: Result<Expr, String>)
    ensures
        seen(r) == parse_model(expression@),
{
    let tokens = match tokenize(expression) {
        Err(e) => {
            return Err(e);
        },
        Ok(tokens) => tokens,
    };
    match parse_level(&tokens, 0, 0) {
        Err(e) => Err(e),
        Ok((expr, p)) => {
            if p < tokens.len() {
                Err(
                    cat4(
                        "unexpected trailing input in ",
                        quote(expression).as_str(),
                        " at token ",
                        count_text(p).as_str(),
                    ),
                )
            } else {
                Ok(expr)
            }
        },
    }
}

} // verus!
