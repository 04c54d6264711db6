//! What holds of expressions whatever they are made of.

use crate::eval::comparison::{
    compared, flipped, ordered, some_number, some_ordered, some_ordered_pair, some_text, standing,
};
use crate::eval::value::{number_of_text, string_at, truth, ValueModel};
use crate::eval::{eval, kept, results, Here, Surroundings};
use crate::functions::{arity, arity_text, builtin, Builtin, NOT_IMPLEMENTED};
use crate::number::{equal, is_nan, of_count, Number};
use crate::parser::ast::{BinaryOp, ExprModel};
use crate::text::decimal;
use crate::tree::{NodeId, Tree};
use vstd::prelude::*;

verus! {

// ---------------------------------------------------------------------------
// Nothing is guessed
// ---------------------------------------------------------------------------

/// A function that is not known is refused by name.
pub proof fn law_unknown_function_is_refused(
    name: Seq<char>,
    args: Seq<ExprModel>,
    t: Tree,
    here: Here,
    env: Surroundings,
)
    requires
        builtin(name) is None,
    ensures
        eval(ExprModel::Function { name, args }, t, here, env) == Err::<ValueModel, Seq<char>>(
            "unknown function "@ + name + "()"@,
        ),
{
}

/// A function that is known and not implemented is refused by name.
pub proof fn law_missing_function_is_refused(
    name: Seq<char>,
    args: Seq<ExprModel>,
    t: Tree,
    here: Here,
    env: Surroundings,
)
    requires
        builtin(name) == Some(Builtin::Missing),
    ensures
        eval(ExprModel::Function { name, args }, t, here, env) == Err::<ValueModel, Seq<char>>(
            name + NOT_IMPLEMENTED@,
        ),
{
}

/// A function that is given more arguments than it takes, or fewer, is
/// refused by name, whatever the arguments come to.
pub proof fn law_wrong_count_is_refused(
    name: Seq<char>,
    args: Seq<ExprModel>,
    t: Tree,
    here: Here,
    env: Surroundings,
    low: nat,
    high: nat,
)
    requires
        builtin(name) matches Some(b) && arity(b) == Some((low, high)),
        args.len() < low || args.len() > high,
    ensures
        eval(ExprModel::Function { name, args }, t, here, env) == Err::<ValueModel, Seq<char>>(
            name + "() takes "@ + arity_text(low, high) + " argument(s), got "@ + decimal(
                args.len(),
            ),
        ),
{
    assert(results(args, t, here, env).len() == args.len());
}

/// An operand that cannot be evaluated is not passed over: what it is an
/// operand of cannot be evaluated either, for the same reason.
pub proof fn law_failure_is_passed_on(
    op: BinaryOp,
    left: ExprModel,
    right: ExprModel,
    t: Tree,
    here: Here,
    env: Surroundings,
    why: Seq<char>,
)
    requires
        eval(left, t, here, env) == Err::<ValueModel, Seq<char>>(why),
    ensures
        eval(
            ExprModel::Binary { op, left: Box::new(left), right: Box::new(right) },
            t,
            here,
            env,
        ) == Err::<ValueModel, Seq<char>>(why),
        eval(ExprModel::Negate(Box::new(left)), t, here, env) == Err::<ValueModel, Seq<char>>(why),
        eval(
            ExprModel::Union(Box::new(left), Box::new(right)),
            t,
            here,
            env,
        ) == Err::<ValueModel, Seq<char>>(why),
{
}

// ---------------------------------------------------------------------------
// What is left alone
// ---------------------------------------------------------------------------

/// Where the first operand of `and` or `or` decides, the second is left
/// alone, even where it could not be evaluated.
pub proof fn law_guards_leave_the_rest_alone(
    left: ExprModel,
    right: ExprModel,
    t: Tree,
    here: Here,
    env: Surroundings,
    v: ValueModel,
)
    requires
        eval(left, t, here, env) == Ok::<ValueModel, Seq<char>>(v),
    ensures
        !truth(v) ==> eval(
            ExprModel::Binary {
                op: BinaryOp::And,
                left: Box::new(left),
                right: Box::new(right),
            },
            t,
            here,
            env,
        ) == Ok::<ValueModel, Seq<char>>(ValueModel::Boolean(false)),
        truth(v) ==> eval(
            ExprModel::Binary { op: BinaryOp::Or, left: Box::new(left), right: Box::new(right) },
            t,
            here,
            env,
        ) == Ok::<ValueModel, Seq<char>>(ValueModel::Boolean(true)),
{
}

/// `if` comes to the branch that is taken, and the other is left alone.
pub proof fn law_if_takes_one_branch(
    name: Seq<char>,
    args: Seq<ExprModel>,
    t: Tree,
    here: Here,
    env: Surroundings,
    v: ValueModel,
)
    requires
        builtin(name) == Some(Builtin::If),
        args.len() == 3,
        eval(args[0], t, here, env) == Ok::<ValueModel, Seq<char>>(v),
    ensures
        eval(ExprModel::Function { name, args }, t, here, env) == if truth(v) {
            eval(args[1], t, here, env)
        } else {
            eval(args[2], t, here, env)
        },
{
    let r = results(args, t, here, env);
    assert(r.len() == 3);
    assert(r[0] == eval(args[0], t, here, env));
    assert(r[1] == eval(args[1], t, here, env));
    assert(r[2] == eval(args[2], t, here, env));
}

/// `today()` and `now()` are what the environment says they are.
pub proof fn law_time_comes_from_the_environment(
    name: Seq<char>,
    t: Tree,
    here: Here,
    env: Surroundings,
)
    ensures
        builtin(name) == Some(Builtin::Today) ==> eval(
            ExprModel::Function { name, args: Seq::empty() },
            t,
            here,
            env,
        ) == Ok::<ValueModel, Seq<char>>(ValueModel::String(env.today)),
        builtin(name) == Some(Builtin::Now) ==> eval(
            ExprModel::Function { name, args: Seq::empty() },
            t,
            here,
            env,
        ) == Ok::<ValueModel, Seq<char>>(ValueModel::String(env.now)),
{
    assert(results(Seq::empty(), t, here, env).len() == 0);
}

// ---------------------------------------------------------------------------
// Predicates
// ---------------------------------------------------------------------------

/// `position() = n`.
pub open spec fn position_is(name: Seq<char>, n: Number) -> ExprModel {
    ExprModel::Binary {
        op: BinaryOp::Equal,
        left: Box::new(ExprModel::Function { name, args: Seq::empty() }),
        right: Box::new(ExprModel::Number(n)),
    }
}

proof fn lemma_position_kept(
    name: Seq<char>,
    n: Number,
    nodes: Seq<NodeId>,
    i: int,
    t: Tree,
    env: Surroundings,
)
    requires
        builtin(name) == Some(Builtin::Position),
        0 <= i,
    ensures
        kept(nodes, ExprModel::Number(n), i, t, env) == kept(
            nodes,
            position_is(name, n),
            i,
            t,
            env,
        ),
    decreases nodes.len() - i,
{
    if i < nodes.len() {
        lemma_position_kept(name, n, nodes, i + 1, t, env);
        let here = Here { node: nodes[i], position: (i + 1) as nat, size: nodes.len() };
        let call = ExprModel::Function { name, args: Seq::empty() };
        assert(results(Seq::empty(), t, here, env).len() == 0);
        let place = of_count((i + 1) as nat);
        assert(eval(call, t, here, env) == Ok::<ValueModel, Seq<char>>(ValueModel::Number(place)));
        assert(eval(ExprModel::Number(n), t, here, env) == Ok::<ValueModel, Seq<char>>(
            ValueModel::Number(n),
        ));
        assert(eval(position_is(name, n), t, here, env) == Ok::<ValueModel, Seq<char>>(
            ValueModel::Boolean(equal(place, n)),
        ));
        assert(equal(place, n) == equal(n, place));
    }
}

/// A number in a predicate means the place of a node, not its value: `[n]`
/// keeps what `[position() = n]` keeps.
pub proof fn law_number_means_position(
    name: Seq<char>,
    n: Number,
    nodes: Seq<NodeId>,
    t: Tree,
    env: Surroundings,
)
    requires
        builtin(name) == Some(Builtin::Position),
    ensures
        kept(nodes, ExprModel::Number(n), 0, t, env) == kept(
            nodes,
            position_is(name, n),
            0,
            t,
            env,
        ),
{
    lemma_position_kept(name, n, nodes, 0, t, env);
}

// ---------------------------------------------------------------------------
// Comparisons
// ---------------------------------------------------------------------------

proof fn lemma_some_number(t: Tree, nodes: Seq<NodeId>, i: int, n: Number, differs: bool)
    requires
        t.all_in(nodes),
        0 <= i <= nodes.len(),
    ensures
        some_number(t, nodes, i, n, differs) == Ok::<bool, Seq<char>>(
            exists|k: int|
                i <= k < nodes.len() && equal(
                    number_of_text(t.string_value(#[trigger] nodes[k])),
                    n,
                ) != differs,
        ),
    decreases nodes.len() - i,
{
    if i < nodes.len() {
        assert(t.has(nodes[i]));
        assert(string_at(t, nodes[i]) == Ok::<Seq<char>, Seq<char>>(t.string_value(nodes[i])));
        lemma_some_number(t, nodes, i + 1, n, differs);
    }
}

pub proof fn lemma_some_text(t: Tree, nodes: Seq<NodeId>, i: int, text: Seq<char>, differs: bool)
    requires
        t.all_in(nodes),
        0 <= i <= nodes.len(),
    ensures
        some_text(t, nodes, i, text, differs) == Ok::<bool, Seq<char>>(
            exists|k: int|
                i <= k < nodes.len() && (t.string_value(#[trigger] nodes[k]) == text) != differs,
        ),
    decreases nodes.len() - i,
{
    if i < nodes.len() {
        assert(t.has(nodes[i]));
        assert(string_at(t, nodes[i]) == Ok::<Seq<char>, Seq<char>>(t.string_value(nodes[i])));
        lemma_some_text(t, nodes, i + 1, text, differs);
    }
}

proof fn lemma_some_ordered(t: Tree, nodes: Seq<NodeId>, i: int, op: BinaryOp, n: Number)
    requires
        t.all_in(nodes),
        0 <= i <= nodes.len(),
    ensures
        some_ordered(t, nodes, i, op, n) == Ok::<bool, Seq<char>>(
            exists|k: int|
                i <= k < nodes.len() && ordered(
                    op,
                    number_of_text(t.string_value(#[trigger] nodes[k])),
                    n,
                ),
        ),
    decreases nodes.len() - i,
{
    if i < nodes.len() {
        assert(t.has(nodes[i]));
        assert(string_at(t, nodes[i]) == Ok::<Seq<char>, Seq<char>>(t.string_value(nodes[i])));
        lemma_some_ordered(t, nodes, i + 1, op, n);
    }
}

/// Whether the numbers of two nodes stand as an operator says.
pub open spec fn stand(t: Tree, op: BinaryOp, a: NodeId, b: NodeId) -> bool {
    ordered(op, number_of_text(t.string_value(a)), number_of_text(t.string_value(b)))
}

proof fn lemma_some_ordered_pair(
    t: Tree,
    left: Seq<NodeId>,
    i: int,
    right: Seq<NodeId>,
    op: BinaryOp,
)
    requires
        t.all_in(left),
        t.all_in(right),
        0 <= i <= left.len(),
        is_ordering(op),
    ensures
        some_ordered_pair(t, left, i, right, op) == Ok::<bool, Seq<char>>(
            exists|j: int, k: int|
                i <= j < left.len() && 0 <= k < right.len() && #[trigger] stand(
                    t,
                    op,
                    left[j],
                    right[k],
                ),
        ),
    decreases left.len() - i,
{
    if i < left.len() {
        assert(t.has(left[i]));
        let x = number_of_text(t.string_value(left[i]));
        assert(string_at(t, left[i]) == Ok::<Seq<char>, Seq<char>>(t.string_value(left[i])));
        lemma_some_ordered(t, right, 0, flipped(op), x);
        lemma_some_ordered_pair(t, left, i + 1, right, op);
        let here = exists|k: int|
            0 <= k < right.len() && ordered(
                flipped(op),
                number_of_text(t.string_value(#[trigger] right[k])),
                x,
            );
        if here {
            let k = choose|k: int|
                0 <= k < right.len() && ordered(
                    flipped(op),
                    number_of_text(t.string_value(#[trigger] right[k])),
                    x,
                );
            assert(stand(t, op, left[i], right[k]));
        }
        if exists|j: int, k: int|
            i <= j < left.len() && 0 <= k < right.len() && #[trigger] stand(
                t,
                op,
                left[j],
                right[k],
            ) {
            let (j, k) = choose|j: int, k: int|
                i <= j < left.len() && 0 <= k < right.len() && #[trigger] stand(
                    t,
                    op,
                    left[j],
                    right[k],
                );
            if j == i {
                assert(ordered(flipped(op), number_of_text(t.string_value(right[k])), x));
            } else {
                assert(stand(t, op, left[j], right[k]));
            }
        }
    }
}

pub open spec fn is_ordering(op: BinaryOp) -> bool {
    match op {
        BinaryOp::Less | BinaryOp::LessEqual | BinaryOp::Greater | BinaryOp::GreaterEqual => true,
        _ => false,
    }
}

/// Against a node-set, `<`, `<=`, `>` and `>=` ask whether some node stands
/// so to a number, on whichever side the number is, and against another
/// node-set whether some pair does. Over no nodes none of them holds.
pub proof fn law_ordering_is_existential(
    t: Tree,
    nodes: Seq<NodeId>,
    others: Seq<NodeId>,
    n: Number,
    op: BinaryOp,
)
    requires
        t.all_in(nodes),
        t.all_in(others),
        is_ordering(op),
    ensures
        standing(t, op, ValueModel::NodeSet(nodes), ValueModel::Number(n)) == Ok::<
            bool,
            Seq<char>,
        >(
            exists|k: int|
                0 <= k < nodes.len() && ordered(
                    op,
                    number_of_text(t.string_value(#[trigger] nodes[k])),
                    n,
                ),
        ),
        standing(t, op, ValueModel::Number(n), ValueModel::NodeSet(nodes)) == Ok::<
            bool,
            Seq<char>,
        >(
            exists|k: int|
                0 <= k < nodes.len() && ordered(
                    op,
                    n,
                    number_of_text(t.string_value(#[trigger] nodes[k])),
                ),
        ),
        standing(t, op, ValueModel::NodeSet(nodes), ValueModel::NodeSet(others)) == Ok::<
            bool,
            Seq<char>,
        >(
            exists|j: int, k: int|
                0 <= j < nodes.len() && 0 <= k < others.len() && #[trigger] stand(
                    t,
                    op,
                    nodes[j],
                    others[k],
                ),
        ),
{
    lemma_some_ordered(t, nodes, 0, op, n);
    lemma_some_ordered(t, nodes, 0, flipped(op), n);
    lemma_some_ordered_pair(t, nodes, 0, others, op);
    assert forall|k: int| 0 <= k < nodes.len() implies ordered(
        flipped(op),
        number_of_text(t.string_value(#[trigger] nodes[k])),
        n,
    ) == ordered(op, n, number_of_text(t.string_value(nodes[k]))) by {}
}

/// Against a node-set, `=` asks whether some node equals a value, and `!=`
/// whether some node does not. So both can hold at once, and over no nodes
/// neither does.
pub proof fn law_comparison_is_existential(
    t: Tree,
    nodes: Seq<NodeId>,
    n: Number,
    text: Seq<char>,
    differs: bool,
)
    requires
        t.all_in(nodes),
    ensures
        compared(t, ValueModel::NodeSet(nodes), ValueModel::Number(n), differs) == Ok::<
            bool,
            Seq<char>,
        >(
            exists|k: int|
                0 <= k < nodes.len() && equal(
                    number_of_text(t.string_value(#[trigger] nodes[k])),
                    n,
                ) != differs,
        ),
        compared(t, ValueModel::NodeSet(nodes), ValueModel::String(text), differs) == Ok::<
            bool,
            Seq<char>,
        >(
            exists|k: int|
                0 <= k < nodes.len() && (t.string_value(#[trigger] nodes[k]) == text) != differs,
        ),
{
    lemma_some_number(t, nodes, 0, n, differs);
    lemma_some_text(t, nodes, 0, text, differs);
}

/// NaN compares false against every number, itself among them.
pub proof fn law_nan_compares_false(t: Tree, x: Number, y: Number, op: BinaryOp)
    requires
        is_nan(x) || is_nan(y),
    ensures
        compared(t, ValueModel::Number(x), ValueModel::Number(y), false) == Ok::<bool, Seq<char>>(
            false,
        ),
        !ordered(op, x, y),
{
}

} // verus!
