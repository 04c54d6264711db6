//! Evaluating a parsed expression against an instance.

use crate::eval::axes::{is_node_set, lemma_walked};
use crate::eval::comparison::{compare, compared, rank, standing};
use crate::eval::nodes::{along, candidates, named, named_from, nodes_seen, sorted_unique, unique};
use crate::eval::predicates::{is_part_of, law_number_picks_one, law_predicates_choose};
use crate::eval::value::{kind_text, number_of, truth, ValueModel};
use crate::functions::{
    call, called, number_result, text_result, truth_result, truth_value, Evaluated,
};
use crate::number::counting::EXACT;
use crate::number::{
    difference, equal, negated, of_count, product, quotient, remainder, sum, Number,
};
use crate::parser::ast::{
    exprs_model, steps_model, Axis, BinaryOp, Expr, ExprModel, NameTest, Step, StepModel, TestModel,
};
use crate::parser::grammar::{lemma_models, lemma_step_models};
use crate::parser::lexer::after;
use crate::text::{cat3, same, seen};
use crate::tree::{Instance, NodeId, Tree};
use vstd::prelude::*;

pub mod axes;
pub mod comparison;
pub mod frame;
pub mod laws;
pub mod likeness;
pub mod meaning;
pub mod nodes;
pub mod predicates;
pub mod value;

pub use crate::eval::value::{format_number, string_to_number, kind_name, Value};

verus! {

/// Where evaluation happens: which node is `.`, and where it sits among its
/// siblings for `position()` and `last()`.
#[derive(Debug, Clone, Copy)]
pub struct Context {
    pub node: NodeId,
    pub position: usize,
    pub size: usize,
}

/// What a context says.
pub struct Here {
    pub node: NodeId,
    pub position: nat,
    pub size: nat,
}

impl View for Context {
    type V = Here;

    open spec fn view(&self) -> Here {
        Here { node: self.node, position: self.position as nat, size: self.size as nat }
    }
}

impl Context {
    pub fn at(node: NodeId) -> (r: Context)
        ensures
            r == (Context { node, position: 1, size: 1 }),
    {
        Context { node, position: 1, size: 1 }
    }
}

/// What an environment answers.
#[verifier::ext_equal]
pub struct Surroundings {
    pub today: Seq<char>,
    pub now: Seq<char>,
    /// The secondary instance of an id.
    pub secondary: spec_fn(Seq<char>) -> Option<Tree>,
    /// The label that a choice list gives to a value, for a question.
    pub label: spec_fn(Seq<char>, Seq<char>) -> Option<Seq<char>>,
}

/// Anything the evaluator needs that the instance alone cannot answer:
/// secondary instances for `instance()`, and the values `today()` and
/// `now()` should return.
///
/// Time is injected rather than read from the clock so that evaluating the
/// same form twice gives the same answer: a test that drifts at midnight is
/// worse than no test.
pub trait Environment {
    spec fn model(&self) -> Surroundings;

    /// The secondary instance of an id, where one is loaded.
    fn secondary_instance(&self, id: &str) -> (r: Option<&Instance>)
        ensures
            match r {
                Some(instance) => (self.model().secondary)(id@) == Some(instance@)
                    && instance@.wf(),
                None => (self.model().secondary)(id@) is None,
            },
    ;

    /// The label a choice list gives to `value` for the question at
    /// `question_path`. Answered by whoever holds the form; a bare evaluator
    /// has no choice lists and says so.
    fn choice_label(&self, value: &str, question_path: &str) -> (r: Option<String>)
        ensures
            match r {
                Some(label) => (self.model().label)(value@, question_path@) == Some(label@),
                None => (self.model().label)(value@, question_path@) is None,
            },
    ;

    /// ISO date for `today()`.
    fn today(&self) -> (r: String)
        ensures
            r@ == self.model().today,
    ;

    /// ISO datetime for `now()`.
    fn now(&self) -> (r: String)
        ensures
            r@ == self.model().now,
    ;
}

/// An environment with no secondary instances and a fixed clock.
#[derive(Debug)]
pub struct Fixed {
    pub today: String,
    pub now: String,
}

/// What an environment answers that has a clock and nothing else.
pub open spec fn bare_surroundings(today: Seq<char>, now: Seq<char>) -> Surroundings {
    Surroundings { today, now, secondary: |id: Seq<char>| None, label: |v: Seq<char>, q: Seq<char>| None }
}

impl Environment for Fixed {
    open spec fn model(&self) -> Surroundings {
        bare_surroundings(self.today@, self.now@)
    }

    fn secondary_instance(&self, id: &str) -> (r: Option<&Instance>) {
        None
    }

    fn choice_label(&self, value: &str, question_path: &str) -> (r: Option<String>) {
        None
    }

    fn today(&self) -> (r: String) {
        self.today.clone()
    }

    fn now(&self) -> (r: String) {
        self.now.clone()
    }
}

// ---------------------------------------------------------------------------
// What an expression comes to
// ---------------------------------------------------------------------------

pub const NO_VARIABLES: &'static str =
    ": XForms has no variables, so this expression cannot be what the form meant";

pub const NOT_LOADED: &'static str =
    "') is not loaded — the form expects a secondary instance the evaluator was not given";

/// The nodes of a result that must be a node-set.
pub open spec fn node_set(r: Evaluated, what: Seq<char>) -> Result<Seq<NodeId>, Seq<char>> {
    match r {
        Err(e) => Err(e),
        Ok(ValueModel::NodeSet(nodes)) => Ok(nodes),
        Ok(other) => Err(what + " needs a node-set, got "@ + kind_text(other)),
    }
}

pub open spec fn as_nodes(r: Result<Seq<NodeId>, Seq<char>>) -> Evaluated {
    match r {
        Err(e) => Err(e),
        Ok(nodes) => Ok(ValueModel::NodeSet(nodes)),
    }
}

/// Two numbers combined.
pub open spec fn arithmetic(op: BinaryOp, x: Number, y: Number) -> Number {
    match op {
        BinaryOp::Add => sum(x, y),
        BinaryOp::Subtract => difference(x, y),
        BinaryOp::Multiply => product(x, y),
        BinaryOp::Divide => quotient(x, y),
        _ => remainder(x, y),
    }
}

/// What two operands come to under an operator. `and` and `or` leave the
/// second alone where the first decides, which matters: a form guards a
/// comparison with a check that the value exists.
pub open spec fn combined(op: BinaryOp, a: Evaluated, b: Evaluated, t: Tree) -> Evaluated {
    match a {
        Err(e) => Err(e),
        Ok(x) => match op {
            BinaryOp::And => if truth(x) {
                truth_value(truth_result(b))
            } else {
                Ok(ValueModel::Boolean(false))
            },
            BinaryOp::Or => if truth(x) {
                Ok(ValueModel::Boolean(true))
            } else {
                truth_value(truth_result(b))
            },
            _ => match b {
                Err(e) => Err(e),
                Ok(y) => match op {
                    BinaryOp::Equal => truth_value(compared(t, x, y, false)),
                    BinaryOp::NotEqual => truth_value(compared(t, x, y, true)),
                    BinaryOp::Less
                    | BinaryOp::LessEqual
                    | BinaryOp::Greater
                    | BinaryOp::GreaterEqual => truth_value(standing(t, op, x, y)),
                    _ => match number_of(x, t) {
                        Err(e) => Err(e),
                        Ok(m) => match number_of(y, t) {
                            Err(e) => Err(e),
                            Ok(n) => Ok(ValueModel::Number(arithmetic(op, m, n))),
                        },
                    },
                },
            },
        },
    }
}

/// Whether a predicate keeps the node at place `i`. A number is shorthand
/// for `position() = n`, which is why `[1]` selects the first sibling and
/// not the node numbered one.
pub open spec fn keeps(v: ValueModel, i: int) -> bool {
    match v {
        ValueModel::Number(n) => equal(n, of_count((i + 1) as nat)),
        _ => truth(v),
    }
}

/// The document and the nodes that a path base names, when it is a call of
/// `instance()`: in the same document first. A form's lookup tables sit
/// beside its primary instance inside one model, and that is what lets a
/// predicate like `item[name = /data/linha]` reach back out to the answer it
/// filters on.
pub open spec fn table_of(id: Seq<char>, t: Tree, env: Surroundings) -> Result<
    (Tree, Seq<NodeId>),
    Seq<char>,
> {
    match t.instance_named(id) {
        Some(root) => Ok((t, seq![root])),
        None => match (env.secondary)(id) {
            None => Err("instance('"@ + id + NOT_LOADED@),
            Some(other) => match other.root {
                None => Ok((other, Seq::empty())),
                Some(root) => Ok((other, seq![root])),
            },
        },
    }
}

/// What an expression comes to at a place of a document.
pub open spec fn eval(e: ExprModel, t: Tree, here: Here, env: Surroundings) -> Evaluated
    decreases e, 0nat,
{
    match e {
        ExprModel::Number(n) => Ok(ValueModel::Number(n)),
        ExprModel::Literal(s) => Ok(ValueModel::String(s)),
        ExprModel::Variable(name) => Err("variable $"@ + name + NO_VARIABLES@),
        ExprModel::Negate(inner) => match number_result(eval(*inner, t, here, env), t) {
            Err(e) => Err(e),
            Ok(n) => Ok(ValueModel::Number(negated(n))),
        },
        ExprModel::Union(left, right) => match node_set(eval(*left, t, here, env), "union"@) {
            Err(e) => Err(e),
            Ok(a) => match node_set(eval(*right, t, here, env), "union"@) {
                Err(e) => Err(e),
                Ok(b) => Ok(ValueModel::NodeSet(sorted_unique(t, a + b))),
            },
        },
        ExprModel::Binary { op, left, right } => combined(
            op,
            eval(*left, t, here, env),
            eval(*right, t, here, env),
            t,
        ),
        ExprModel::Path { absolute, steps } => if !absolute {
            as_nodes(walked(seq![here.node], steps, 0, t, env))
        } else {
            match t.root {
                None => Ok(ValueModel::NodeSet(Seq::empty())),
                Some(root) => if names_root(steps, t, root) {
                    // An absolute path names the root element itself:
                    // /data/age starts at data and steps to age.
                    match filtered(seq![root], steps[0].predicates, 0, t, env) {
                        Err(e) => Err(e),
                        Ok(nodes) => as_nodes(walked(nodes, steps, 1, t, env)),
                    }
                } else {
                    as_nodes(walked(seq![root], steps, 0, t, env))
                },
            }
        },
        ExprModel::Filter { base, predicates, steps } => {
            let start = match *base {
                ExprModel::Function { name, args } => if name == "instance"@ {
                    if args.len() == 0 {
                        Err("instance() needs an id"@)
                    } else {
                        match table_id(args, t, here, env) {
                            Err(e) => Err(e),
                            Ok(id) => table_of(id, t, env),
                        }
                    }
                } else {
                    match node_set(eval(*base, t, here, env), "a path base"@) {
                        Err(e) => Err(e),
                        Ok(nodes) => Ok((t, nodes)),
                    }
                },
                _ => match node_set(eval(*base, t, here, env), "a path base"@) {
                    Err(e) => Err(e),
                    Ok(nodes) => Ok((t, nodes)),
                },
            };
            match start {
                Err(e) => Err(e),
                Ok((target, nodes)) => match filtered(nodes, predicates, 0, target, env) {
                    Err(e) => Err(e),
                    Ok(kept) => as_nodes(walked(kept, steps, 0, target, env)),
                },
            }
        },
        ExprModel::Function { name, args } => called(
            name,
            args,
            results(args, t, here, env),
            t,
            here,
            env,
        ),
    }
}

/// The id that a call of `instance()` names.
pub open spec fn table_id(args: Seq<ExprModel>, t: Tree, here: Here, env: Surroundings) -> Result<
    Seq<char>,
    Seq<char>,
>
    decreases args, 1nat,
{
    if args.len() == 0 {
        Ok(Seq::empty())
    } else {
        match args[0] {
            ExprModel::Literal(s) => Ok(s),
            _ => text_result(eval(args[0], t, here, env), t),
        }
    }
}

/// Whether the first step of an absolute path is the root element.
pub open spec fn names_root(steps: Seq<StepModel>, t: Tree, root: NodeId) -> bool {
    steps.len() > 0 && steps[0].axis == Axis::Child && steps[0].test == TestModel::Named(
        t.name(root),
    )
}

/// What the arguments of a call come to.
pub open spec fn results(args: Seq<ExprModel>, t: Tree, here: Here, env: Surroundings) -> Seq<
    Evaluated,
>
    decreases args, 1nat,
{
    Seq::new(
        args.len(),
        |i: int|
            if 0 <= i < args.len() {
                eval(args[i], t, here, env)
            } else {
                arbitrary()
            },
    )
}

/// Where steps lead from some nodes, the first step being the one at `k`.
pub open spec fn walked(
    nodes: Seq<NodeId>,
    steps: Seq<StepModel>,
    k: int,
    t: Tree,
    env: Surroundings,
) -> Result<Seq<NodeId>, Seq<char>>
    decreases steps, steps.len() - k,
{
    if k < 0 || k >= steps.len() {
        Ok(nodes)
    } else {
        match stepped(nodes, steps[k], 0, t, env) {
            Err(e) => Err(e),
            Ok(next) => walked(sorted_unique(t, next), steps, k + 1, t, env),
        }
    }
}

/// The nodes that one step leads to from some nodes, from the one at `i` on.
pub open spec fn stepped(
    nodes: Seq<NodeId>,
    step: StepModel,
    i: int,
    t: Tree,
    env: Surroundings,
) -> Result<Seq<NodeId>, Seq<char>>
    decreases step, nodes.len() - i,
{
    if i < 0 || i >= nodes.len() {
        Ok(Seq::empty())
    } else {
        match candidates(t, nodes[i], step.axis) {
            Err(e) => Err(e),
            Ok(all) => match named_from(t, all, step.test, 0) {
                Err(e) => Err(e),
                Ok(matching) => match filtered(matching, step.predicates, 0, t, env) {
                    Err(e) => Err(e),
                    Ok(kept) => after(kept, stepped(nodes, step, i + 1, t, env)),
                },
            },
        }
    }
}

/// The nodes that predicates leave, the first predicate being the one at
/// `k`. Each node's `position()` is its place in the set that the predicate
/// filters, not in the document.
pub open spec fn filtered(
    nodes: Seq<NodeId>,
    predicates: Seq<ExprModel>,
    k: int,
    t: Tree,
    env: Surroundings,
) -> Result<Seq<NodeId>, Seq<char>>
    decreases predicates, predicates.len() - k,
{
    if k < 0 || k >= predicates.len() {
        Ok(nodes)
    } else {
        match kept(nodes, predicates[k], 0, t, env) {
            Err(e) => Err(e),
            Ok(next) => filtered(next, predicates, k + 1, t, env),
        }
    }
}

/// The nodes that one predicate leaves of some, from the one at `i` on.
pub open spec fn kept(
    nodes: Seq<NodeId>,
    predicate: ExprModel,
    i: int,
    t: Tree,
    env: Surroundings,
) -> Result<Seq<NodeId>, Seq<char>>
    decreases predicate, 1 + nodes.len() - i,
{
    if i < 0 || i >= nodes.len() {
        Ok(Seq::empty())
    } else {
        let here = Here { node: nodes[i], position: (i + 1) as nat, size: nodes.len() };
        match eval(predicate, t, here, env) {
            Err(e) => Err(e),
            Ok(v) => {
                let rest = kept(nodes, predicate, i + 1, t, env);
                if keeps(v, i) {
                    after(seq![nodes[i]], rest)
                } else {
                    rest
                }
            },
        }
    }
}

// ---------------------------------------------------------------------------
// Evaluating
// ---------------------------------------------------------------------------

pub type EvalResult = Result<Value, String>;

fn node_set_of(result: EvalResult, what: &str) -> (r: Result<Vec<NodeId>, String>)
    ensures
        nodes_seen(r) == node_set(seen(result), what@),
{
    match result {
        Err(e) => Err(e),
        Ok(Value::NodeSet(nodes)) => Ok(nodes),
        Ok(other) => Err(cat3(what, " needs a node-set, got ", kind_name(&other))),
    }
}

fn nodes_value(result: Result<Vec<NodeId>, String>) -> (r: EvalResult)
    ensures
        seen(r) == as_nodes(nodes_seen(result)),
{
    match result {
        Err(e) => Err(e),
        Ok(nodes) => Ok(Value::NodeSet(nodes)),
    }
}

fn only(node: NodeId) -> (r: Vec<NodeId>)
    ensures
        r@ == seq![node],
{
    let mut v: Vec<NodeId> = Vec::new();
    v.push(node);
    v
}

fn calculate(op: BinaryOp, x: Number, y: Number) -> (r: Number)
    ensures
        r == arithmetic(op, x, y),
{
    match op {
        BinaryOp::Add => x.plus(y),
        BinaryOp::Subtract => x.minus(y),
        BinaryOp::Multiply => x.times(y),
        BinaryOp::Divide => x.over(y),
        _ => x.modulo(y),
    }
}

/// Evaluate an expression at a place of a document.
///
/// A node-set that came out of another document may name nodes which this
/// one does not have. Reading such a node is an error that says so.
pub fn evaluate<E: Environment>(
    expr: &Expr,
    instance: &Instance,
    context: Context,
    env: &E,
) -> (r: EvalResult)
    requires
        instance@.wf(),
    ensures
        seen(r) == eval(expr@, instance@, context@, env.model()),
    decreases expr, 5nat,
{
    match expr {
        Expr::Number(n) => Ok(Value::Number(*n)),
        Expr::Literal(s) => Ok(Value::String(s.clone())),
        Expr::Variable(name) => Err(cat3("variable $", name.as_str(), NO_VARIABLES)),
        Expr::Negate(inner) => match evaluate(inner, instance, context, env) {
            Err(e) => Err(e),
            Ok(value) => match value.number(instance) {
                Err(e) => Err(e),
                Ok(n) => Ok(Value::Number(n.negated())),
            },
        },
        Expr::Union(left, right) => {
            let mut all = match node_set_of(evaluate(left, instance, context, env), "union") {
                Err(e) => {
                    return Err(e);
                },
                Ok(nodes) => nodes,
            };
            match node_set_of(evaluate(right, instance, context, env), "union") {
                Err(e) => Err(e),
                Ok(mut nodes) => {
                    all.append(&mut nodes);
                    Ok(Value::NodeSet(unique(instance, &all)))
                },
            }
        },
        Expr::Binary { .. } => binary(expr, instance, context, env),
        Expr::Path { absolute, steps } => {
            if !*absolute {
                return nodes_value(walk(only(context.node), steps, 0, instance, env));
            }
            let root = match instance.root() {
                None => {
                    let none: Vec<NodeId> = Vec::new();
                    assert(none@ == Seq::<NodeId>::empty());
                    return Ok(Value::NodeSet(none));
                },
                Some(root) => root,
            };
            proof {
                lemma_step_models(*steps);
            }
            if steps.len() > 0 && at_root(&steps[0], instance, root) {
                assert(decreases_to!(steps => steps@[0].predicates));
                match apply_predicates(only(root), &steps[0].predicates, instance, env) {
                    Err(e) => Err(e),
                    Ok(nodes) => nodes_value(walk(nodes, steps, 1, instance, env)),
                }
            } else {
                nodes_value(walk(only(root), steps, 0, instance, env))
            }
        },
        Expr::Filter { .. } => filter(expr, instance, context, env),
        Expr::Function { name, args } => call(name.as_str(), args, instance, context, env),
    }
}

fn at_root(step: &Step, instance: &Instance, root: NodeId) -> (r: bool)
    requires
        instance@.has(root),
    ensures
        r == (step@.axis == Axis::Child && step@.test == TestModel::Named(instance@.name(root))),
{
    match &step.test {
        NameTest::Named(name) => step.axis == Axis::Child && same(
            instance.node(root).name.as_str(),
            name.as_str(),
        ),
        NameTest::Any => false,
    }
}

/// A path rooted at another expression. `instance('x')/...` steps into
/// another document, so the walk has to continue there rather than in the
/// primary instance. It is told apart before the base is evaluated:
/// instance() is not a function that returns a value, it names a document,
/// and handing it to the function table would fail on the one form shape
/// that matters most, since every cascading select is written this way.
fn filter<E: Environment>(expr: &Expr, instance: &Instance, context: Context, env: &E) -> (r:
    EvalResult)
    requires
        instance@.wf(),
        expr is Filter,
    ensures
        seen(r) == eval(expr@, instance@, context@, env.model()),
    decreases expr, 3nat,
{
    if let Expr::Filter { base, .. } = expr {
        let is_table = match &**base {
            Expr::Function { name, .. } => same(name.as_str(), "instance"),
            _ => false,
        };
        if !is_table {
            return match node_set_of(evaluate(base, instance, context, env), "a path base") {
                Err(e) => Err(e),
                Ok(nodes) => filtered_walk(expr, nodes, instance, env),
            };
        }
        let id = match instance_id(base, instance, context, env) {
            Err(e) => {
                return Err(e);
            },
            Ok(id) => id,
        };
        if let Some(root) = instance.instance_named(id.as_str()) {
            return filtered_walk(expr, only(root), instance, env);
        }
        match env.secondary_instance(id.as_str()) {
            None => Err(cat3("instance('", id.as_str(), NOT_LOADED)),
            Some(secondary) => {
                let start: Vec<NodeId> = match secondary.root() {
                    Some(root) => only(root),
                    None => {
                        let none: Vec<NodeId> = Vec::new();
                        assert(none@ == Seq::<NodeId>::empty());
                        none
                    },
                };
                filtered_walk(expr, start, secondary, env)
            },
        }
    } else {
        Err(String::new())
    }
}

/// The id that a call of `instance()` names.
fn instance_id<E: Environment>(base: &Expr, instance: &Instance, context: Context, env: &E) -> (r:
    Result<String, String>)
    requires
        instance@.wf(),
        base is Function,
    ensures
        match base@ {
            ExprModel::Function { name, args } => seen(r) == if args.len() == 0 {
                Err("instance() needs an id"@)
            } else {
                table_id(args, instance@, context@, env.model())
            },
            _ => true,
        },
    decreases base, 3nat,
{
    if let Expr::Function { name, args } = base {
        proof {
            lemma_models(*args);
        }
        if args.len() == 0 {
            return Err("instance() needs an id".to_string());
        }
        match &args[0] {
            Expr::Literal(s) => Ok(s.clone()),
            other => {
                assert(decreases_to!(args => args@[0]));
                match evaluate(other, instance, context, env) {
                    Err(e) => Err(e),
                    Ok(value) => value.text(instance),
                }
            },
        }
    } else {
        Err(String::new())
    }
}

/// The nodes that the predicates of a path leave, and where its steps lead
/// from them.
fn filtered_walk<E: Environment>(
    expr: &Expr,
    nodes: Vec<NodeId>,
    instance: &Instance,
    env: &E,
) -> (r: EvalResult)
    requires
        instance@.wf(),
        expr is Filter,
    ensures
        match expr@ {
            ExprModel::Filter { base, predicates, steps } => seen(r) == (match filtered(
                nodes@,
                predicates,
                0,
                instance@,
                env.model(),
            ) {
                Err(e) => Err(e),
                Ok(kept) => as_nodes(walked(kept, steps, 0, instance@, env.model())),
            }),
            _ => true,
        },
    decreases expr, 2nat,
{
    if let Expr::Filter { predicates, steps, .. } = expr {
        match apply_predicates(nodes, predicates, instance, env) {
            Err(e) => Err(e),
            Ok(kept) => nodes_value(walk(kept, steps, 0, instance, env)),
        }
    } else {
        Err(String::new())
    }
}

fn binary<E: Environment>(expr: &Expr, instance: &Instance, context: Context, env: &E) -> (r:
    EvalResult)
    requires
        instance@.wf(),
        expr is Binary,
    ensures
        seen(r) == eval(expr@, instance@, context@, env.model()),
    decreases expr, 3nat,
{
    if let Expr::Binary { op, left, right } = expr {
        let a = match evaluate(left, instance, context, env) {
            Err(e) => {
                return Err(e);
            },
            Ok(a) => a,
        };
        let decided = match op {
            BinaryOp::And => !a.to_boolean(instance),
            BinaryOp::Or => a.to_boolean(instance),
            _ => false,
        };
        if decided {
            return Ok(Value::Boolean(*op == BinaryOp::Or));
        }
        let b = match evaluate(right, instance, context, env) {
            Err(e) => {
                return Err(e);
            },
            Ok(b) => b,
        };
        match op {
            BinaryOp::And | BinaryOp::Or => Ok(Value::Boolean(b.to_boolean(instance))),
            BinaryOp::Equal | BinaryOp::NotEqual => match compare(
                instance,
                &a,
                &b,
                *op == BinaryOp::NotEqual,
            ) {
                Err(e) => Err(e),
                Ok(hit) => Ok(Value::Boolean(hit)),
            },
            BinaryOp::Less
            | BinaryOp::LessEqual
            | BinaryOp::Greater
            | BinaryOp::GreaterEqual => match rank(instance, *op, &a, &b) {
                Err(e) => Err(e),
                Ok(hit) => Ok(Value::Boolean(hit)),
            },
            _ => {
                let x = match a.number(instance) {
                    Err(e) => {
                        return Err(e);
                    },
                    Ok(x) => x,
                };
                let y = match b.number(instance) {
                    Err(e) => {
                        return Err(e);
                    },
                    Ok(y) => y,
                };
                Ok(Value::Number(calculate(*op, x, y)))
            },
        }
    } else {
        Err(String::new())
    }
}

/// Where steps lead from some nodes: from a node-set of a document that was
/// read, to a node-set of it.
pub(crate) fn walk<E: Environment>(
    nodes: Vec<NodeId>,
    steps: &Vec<Step>,
    from: usize,
    instance: &Instance,
    env: &E,
) -> (r: Result<Vec<NodeId>, String>)
    requires
        instance@.wf(),
    ensures
        nodes_seen(r) == walked(
            nodes@,
            steps_model(*steps),
            from as int,
            instance@,
            env.model(),
        ),
        instance@.as_read() && is_node_set(instance@, nodes@) ==> (r matches Ok(found)
            ==> is_node_set(instance@, found@)),
    decreases steps, 1nat,
{
    proof {
        if instance@.as_read() && is_node_set(instance@, nodes@) {
            lemma_walked(nodes@, steps_model(*steps), from as int, instance@, env.model());
        }
    }
    let ghost model = steps_model(*steps);
    let ghost all = walked(nodes@, model, from as int, instance@, env.model());
    proof {
        lemma_step_models(*steps);
    }
    let n = steps.len();
    let mut current = nodes;
    let mut k: usize = from;
    while k < n
        invariant
            instance@.wf(),
            n == steps@.len(),
            from <= k,
            model == steps_model(*steps),
            model == crate::parser::grammar::step_models(steps@),
            all == walked(nodes@, model, from as int, instance@, env.model()),
            all == walked(current@, model, k as int, instance@, env.model()),
        decreases n - k,
    {
        assert(decreases_to!(steps => steps@[k as int]));
        assert(model[k as int] == steps@[k as int]@);
        match take_step(&current, &steps[k], instance, env) {
            Err(e) => {
                return Err(e);
            },
            Ok(next) => {
                current = unique(instance, &next);
            },
        }
        k = k + 1;
    }
    Ok(current)
}

/// The nodes that one step leads to from some nodes.
fn take_step<E: Environment>(nodes: &Vec<NodeId>, step: &Step, instance: &Instance, env: &E) -> (r:
    Result<Vec<NodeId>, String>)
    requires
        instance@.wf(),
    ensures
        nodes_seen(r) == stepped(nodes@, step@, 0, instance@, env.model()),
    decreases step, 1nat,
{
    let ghost all = stepped(nodes@, step@, 0, instance@, env.model());
    let mut out: Vec<NodeId> = Vec::new();
    let n = nodes.len();
    proof {
        if let Ok(s) = all {
            assert(Seq::<NodeId>::empty() + s == s);
        }
    }
    for i in 0..n
        invariant
            instance@.wf(),
            n == nodes@.len(),
            all == stepped(nodes@, step@, 0, instance@, env.model()),
            all == after(out@, stepped(nodes@, step@, i as int, instance@, env.model())),
    {
        let found = match along(instance, nodes[i], step.axis) {
            Err(e) => {
                return Err(e);
            },
            Ok(found) => found,
        };
        let matching = match named(instance, &found, &step.test) {
            Err(e) => {
                return Err(e);
            },
            Ok(matching) => matching,
        };
        let mut left = match apply_predicates(matching, &step.predicates, instance, env) {
            Err(e) => {
                return Err(e);
            },
            Ok(left) => left,
        };
        let ghost was = out@;
        let ghost part = left@;
        out.append(&mut left);
        proof {
            if let Ok(s) = stepped(nodes@, step@, i + 1, instance@, env.model()) {
                assert(was + (part + s) == out@ + s);
            }
        }
    }
    assert(out@ + Seq::<NodeId>::empty() == out@);
    Ok(out)
}

/// The nodes that predicates leave of some, in the order these had. A number
/// alone leaves the one node at its place, counted from 1.
pub(crate) fn apply_predicates<E: Environment>(
    nodes: Vec<NodeId>,
    predicates: &Vec<Expr>,
    instance: &Instance,
    env: &E,
) -> (r: Result<Vec<NodeId>, String>)
    requires
        instance@.wf(),
    ensures
        nodes_seen(r) == filtered(
            nodes@,
            exprs_model(*predicates),
            0,
            instance@,
            env.model(),
        ),
        r matches Ok(left) ==> is_part_of(left@, nodes@),
        forall|k: nat|
            1 <= k <= nodes@.len() < EXACT && exprs_model(*predicates) == seq![
                ExprModel::Number(#[trigger] of_count(k)),
            ] ==> (r matches Ok(left) && left@ == seq![nodes@[k - 1]]),
    decreases predicates, 1nat,
{
    proof {
        law_predicates_choose(nodes@, exprs_model(*predicates), instance@, env.model());
    }
    let ghost model = exprs_model(*predicates);
    let ghost all = filtered(nodes@, model, 0, instance@, env.model());
    proof {
        lemma_models(*predicates);
        assert forall|k: nat|
            1 <= k <= nodes@.len() < EXACT && model == seq![
                ExprModel::Number(#[trigger] of_count(k)),
            ] implies all == Ok::<Seq<NodeId>, Seq<char>>(seq![nodes@[k - 1]]) by {
            law_number_picks_one(of_count(k), nodes@, instance@, env.model());
        }
    }
    let n = predicates.len();
    let mut current = nodes;
    for k in 0..n
        invariant
            instance@.wf(),
            n == predicates@.len(),
            model == exprs_model(*predicates),
            model == crate::parser::grammar::expr_models(predicates@),
            all == filtered(nodes@, model, 0, instance@, env.model()),
            all == filtered(current@, model, k as int, instance@, env.model()),
            forall|k: nat|
                1 <= k <= nodes@.len() < EXACT && model == seq![
                    ExprModel::Number(#[trigger] of_count(k)),
                ] ==> all == Ok::<Seq<NodeId>, Seq<char>>(seq![nodes@[k - 1]]),
    {
        assert(decreases_to!(predicates => predicates@[k as int]));
        assert(model[k as int] == predicates@[k as int]@);
        match keep(&current, &predicates[k], instance, env) {
            Err(e) => {
                return Err(e);
            },
            Ok(next) => {
                current = next;
            },
        }
    }
    Ok(current)
}

/// The nodes that one predicate leaves of some.
fn keep<E: Environment>(nodes: &Vec<NodeId>, predicate: &Expr, instance: &Instance, env: &E) -> (r:
    Result<Vec<NodeId>, String>)
    requires
        instance@.wf(),
    ensures
        nodes_seen(r) == kept(nodes@, predicate@, 0, instance@, env.model()),
    decreases predicate, 6nat,
{
    let ghost all = kept(nodes@, predicate@, 0, instance@, env.model());
    let mut out: Vec<NodeId> = Vec::new();
    let n = nodes.len();
    proof {
        if let Ok(s) = all {
            assert(Seq::<NodeId>::empty() + s == s);
        }
    }
    for i in 0..n
        invariant
            instance@.wf(),
            n == nodes@.len(),
            all == kept(nodes@, predicate@, 0, instance@, env.model()),
            all == after(out@, kept(nodes@, predicate@, i as int, instance@, env.model())),
    {
        let context = Context { node: nodes[i], position: i + 1, size: n };
        let value = match evaluate(predicate, instance, context, env) {
            Err(e) => {
                return Err(e);
            },
            Ok(value) => value,
        };
        let keeps_it = match &value {
            Value::Number(x) => *x == Number::from_count(i + 1),
            other => other.to_boolean(instance),
        };
        let ghost was = out@;
        if keeps_it {
            out.push(nodes[i]);
            proof {
                if let Ok(s) = kept(nodes@, predicate@, i + 1, instance@, env.model()) {
                    assert(was + (seq![nodes@[i as int]] + s) == out@ + s);
                }
            }
        }
    }
    assert(out@ + Seq::<NodeId>::empty() == out@);
    Ok(out)
}

} // verus!
