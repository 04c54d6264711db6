//! Expressions.

use crate::number::Number;
use vstd::prelude::*;

verus! {

#[derive(Debug, Clone, Copy, PartialEq, Eq, Structural)]
pub enum Axis {
    Child,
    Parent,
    Self_,
    Descendant,
    DescendantOrSelf,
    Ancestor,
    AncestorOrSelf,
    Attribute,
    Following,
    FollowingSibling,
    Preceding,
    PrecedingSibling,
}

#[derive(Debug, PartialEq)]
pub enum NameTest {
    Any,
    Named(String),
}

#[derive(Debug, PartialEq)]
pub struct Step {
    pub axis: Axis,
    pub test: NameTest,
    pub predicates: Vec<Expr>,
}

#[derive(Debug, PartialEq)]
pub enum Expr {
    Number(Number),
    Literal(String),
    Variable(String),
    /// `/a/b` when absolute, `a/b` when not.
    Path { absolute: bool, steps: Vec<Step> },
    /// A path rooted at another expression: `instance('x')/root/item`.
    Filter { base: Box<Expr>, predicates: Vec<Expr>, steps: Vec<Step> },
    Function { name: String, args: Vec<Expr> },
    Binary { op: BinaryOp, left: Box<Expr>, right: Box<Expr> },
    Negate(Box<Expr>),
    Union(Box<Expr>, Box<Expr>),
}

#[derive(Debug, Clone, Copy, PartialEq, Eq, Structural)]
pub enum BinaryOp {
    Or,
    And,
    Equal,
    NotEqual,
    Less,
    LessEqual,
    Greater,
    GreaterEqual,
    Add,
    Subtract,
    Multiply,
    Divide,
    Modulo,
}

/// How an operator is written.
pub open spec fn op_symbol(op: BinaryOp) -> Seq<char> {
    match op {
        BinaryOp::Or => "or"@,
        BinaryOp::And => "and"@,
        BinaryOp::Equal => "="@,
        BinaryOp::NotEqual => "!="@,
        BinaryOp::Less => "<"@,
        BinaryOp::LessEqual => "<="@,
        BinaryOp::Greater => ">"@,
        BinaryOp::GreaterEqual => ">="@,
        BinaryOp::Add => "+"@,
        BinaryOp::Subtract => "-"@,
        BinaryOp::Multiply => "*"@,
        BinaryOp::Divide => "div"@,
        BinaryOp::Modulo => "mod"@,
    }
}

impl BinaryOp {
    /// How the operator is written.
    pub fn symbol(self) -> (r: &'static str)
        ensures
            r@ == op_symbol(self),
    {
        match self {
            BinaryOp::Or => "or",
            BinaryOp::And => "and",
            BinaryOp::Equal => "=",
            BinaryOp::NotEqual => "!=",
            BinaryOp::Less => "<",
            BinaryOp::LessEqual => "<=",
            BinaryOp::Greater => ">",
            BinaryOp::GreaterEqual => ">=",
            BinaryOp::Add => "+",
            BinaryOp::Subtract => "-",
            BinaryOp::Multiply => "*",
            BinaryOp::Divide => "div",
            BinaryOp::Modulo => "mod",
        }
    }
}

// ---------------------------------------------------------------------------
// The model
// ---------------------------------------------------------------------------

pub enum TestModel {
    Any,
    Named(Seq<char>),
}

/// What a step says.
#[verifier::ext_equal]
pub struct StepModel {
    pub axis: Axis,
    pub test: TestModel,
    pub predicates: Seq<ExprModel>,
}

/// What an expression says.
#[verifier::ext_equal]
pub enum ExprModel {
    Number(Number),
    Literal(Seq<char>),
    Variable(Seq<char>),
    Path { absolute: bool, steps: Seq<StepModel> },
    Filter { base: Box<ExprModel>, predicates: Seq<ExprModel>, steps: Seq<StepModel> },
    Function { name: Seq<char>, args: Seq<ExprModel> },
    Binary { op: BinaryOp, left: Box<ExprModel>, right: Box<ExprModel> },
    Negate(Box<ExprModel>),
    Union(Box<ExprModel>, Box<ExprModel>),
}

pub open spec fn expr_model(e: Expr) -> ExprModel
    decreases e,
{
    match e {
        Expr::Number(n) => ExprModel::Number(n),
        Expr::Literal(s) => ExprModel::Literal(s@),
        Expr::Variable(s) => ExprModel::Variable(s@),
        Expr::Path { absolute, steps } => ExprModel::Path { absolute, steps: steps_model(steps) },
        Expr::Filter { base, predicates, steps } => ExprModel::Filter {
            base: Box::new(expr_model(*base)),
            predicates: exprs_model(predicates),
            steps: steps_model(steps),
        },
        Expr::Function { name, args } => ExprModel::Function {
            name: name@,
            args: exprs_model(args),
        },
        Expr::Binary { op, left, right } => ExprModel::Binary {
            op,
            left: Box::new(expr_model(*left)),
            right: Box::new(expr_model(*right)),
        },
        Expr::Negate(inner) => ExprModel::Negate(Box::new(expr_model(*inner))),
        Expr::Union(left, right) => ExprModel::Union(
            Box::new(expr_model(*left)),
            Box::new(expr_model(*right)),
        ),
    }
}

pub open spec fn exprs_model(v: Vec<Expr>) -> Seq<ExprModel>
    decreases v,
{
    Seq::new(
        v.len() as nat,
        |i: int|
            if 0 <= i < v.len() {
                expr_model(v[i])
            } else {
                arbitrary()
            },
    )
}

pub open spec fn test_model(t: NameTest) -> TestModel {
    match t {
        NameTest::Any => TestModel::Any,
        NameTest::Named(s) => TestModel::Named(s@),
    }
}

pub open spec fn step_model(s: Step) -> StepModel
    decreases s,
{
    StepModel { axis: s.axis, test: test_model(s.test), predicates: exprs_model(s.predicates) }
}

pub open spec fn steps_model(v: Vec<Step>) -> Seq<StepModel>
    decreases v,
{
    Seq::new(
        v.len() as nat,
        |i: int|
            if 0 <= i < v.len() {
                step_model(v[i])
            } else {
                arbitrary()
            },
    )
}

impl View for NameTest {
    type V = TestModel;

    open spec fn view(&self) -> TestModel {
        test_model(*self)
    }
}

impl View for Step {
    type V = StepModel;

    open spec fn view(&self) -> StepModel {
        step_model(*self)
    }
}

impl View for Expr {
    type V = ExprModel;

    open spec fn view(&self) -> ExprModel {
        expr_model(*self)
    }
}

impl Clone for NameTest {
    fn clone(&self) -> (r: NameTest)
        ensures
            r@ == self@,
    {
        match self {
            NameTest::Any => NameTest::Any,
            NameTest::Named(s) => NameTest::Named(s.clone()),
        }
    }
}

fn copy_expr(e: &Expr) -> (r: Expr)
    ensures
        r@ == e@,
    decreases e, 0nat,
{
    match e {
        Expr::Number(n) => Expr::Number(*n),
        Expr::Literal(s) => Expr::Literal(s.clone()),
        Expr::Variable(s) => Expr::Variable(s.clone()),
        Expr::Path { absolute, steps } => Expr::Path {
            absolute: *absolute,
            steps: copy_steps(steps),
        },
        Expr::Filter { base, predicates, steps } => Expr::Filter {
            base: Box::new(copy_expr(base)),
            predicates: copy_exprs(predicates),
            steps: copy_steps(steps),
        },
        Expr::Function { name, args } => Expr::Function {
            name: name.clone(),
            args: copy_exprs(args),
        },
        Expr::Binary { op, left, right } => Expr::Binary {
            op: *op,
            left: Box::new(copy_expr(left)),
            right: Box::new(copy_expr(right)),
        },
        Expr::Negate(inner) => Expr::Negate(Box::new(copy_expr(inner))),
        Expr::Union(left, right) => Expr::Union(
            Box::new(copy_expr(left)),
            Box::new(copy_expr(right)),
        ),
    }
}

fn copy_exprs(v: &Vec<Expr>) -> (r: Vec<Expr>)
    ensures
        exprs_model(r) == exprs_model(*v),
    decreases v, 1nat,
{
    let mut out: Vec<Expr> = Vec::new();
    let n = v.len();
    for i in 0..n
        invariant
            n == v@.len(),
            out@.len() == i,
            forall|j: int| 0 <= j < i ==> (#[trigger] out@[j])@ == v@[j]@,
    {
        assert(decreases_to!(v => v@[i as int]));
        out.push(copy_expr(&v[i]));
    }
    assert(exprs_model(out) =~= exprs_model(*v)) by {
        assert forall|j: int| 0 <= j < n implies exprs_model(out)[j] == exprs_model(*v)[j] by {
            assert(out@[j]@ == v@[j]@);
        }
    }
    out
}

fn copy_steps(v: &Vec<Step>) -> (r: Vec<Step>)
    ensures
        steps_model(r) == steps_model(*v),
    decreases v, 1nat,
{
    let mut out: Vec<Step> = Vec::new();
    let n = v.len();
    for i in 0..n
        invariant
            n == v@.len(),
            out@.len() == i,
            forall|j: int| 0 <= j < i ==> (#[trigger] out@[j])@ == v@[j]@,
    {
        assert(decreases_to!(v => v@[i as int].predicates));
        let s = &v[i];
        out.push(
            Step { axis: s.axis, test: s.test.clone(), predicates: copy_exprs(&s.predicates) },
        );
    }
    assert(steps_model(out) =~= steps_model(*v)) by {
        assert forall|j: int| 0 <= j < n implies steps_model(out)[j] == steps_model(*v)[j] by {
            assert(out@[j]@ == v@[j]@);
        }
    }
    out
}

impl Clone for Expr {
    fn clone(&self) -> (r: Expr)
        ensures
            r@ == self@,
    {
        copy_expr(self)
    }
}

impl Clone for Step {
    fn clone(&self) -> (r: Step)
        ensures
            r@ == self@,
    {
        Step { axis: self.axis, test: self.test.clone(), predicates: copy_exprs(&self.predicates) }
    }
}

} // verus!
