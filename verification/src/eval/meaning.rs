//! What operators, paths and predicates come to, by what they are given.

use crate::eval::axes::{leads, lemma_along};
use crate::eval::comparison::{compared, some_pair, some_text};
use crate::eval::laws::lemma_some_text;
use crate::eval::nodes::{axis_nodes, law_node_sets_in_document_order, named_from};
use crate::eval::value::{number_of, number_of_text, string_at, text_of, truth, ValueModel};
use crate::eval::{
    eval, filtered, keeps, kept, stepped, table_id, walked, Here, Surroundings,
};
use crate::functions::laws::{counts_as_true, finds, is_the_integer, makes, verdict};
use crate::number::laws::{
    is_held, law_integers_add_up, law_integers_keep_their_order,
    law_integers_multiply_and_divide, law_one_is_one, law_order_is_that_of_values, lemma_held,
    lemma_ones, of_int,
};
use crate::number::{
    equal, is_finite, is_nan, lemma_with_sign, signed_units, with_sign, Number, ONE,
};
use crate::parser::ast::{Axis, BinaryOp, ExprModel, StepModel, TestModel};
use crate::tree::{NodeId, Tree};
use vstd::prelude::*;

verus! {

/// Two expressions with an operator between them.
pub open spec fn joined(op: BinaryOp, a: ExprModel, b: ExprModel) -> ExprModel {
    ExprModel::Binary { op, left: Box::new(a), right: Box::new(b) }
}

/// Whether an expression comes to a value.
pub open spec fn gives(
    a: ExprModel,
    v: ValueModel,
    t: Tree,
    here: Here,
    env: Surroundings,
) -> bool {
    eval(a, t, here, env) == Ok::<ValueModel, Seq<char>>(v)
}

// ---------------------------------------------------------------------------
// Operators
// ---------------------------------------------------------------------------

/// Arithmetic on integers is that of the integers: sums, differences,
/// products, quotients that come out even, remainders with the sign of what
/// is divided, and a minus sign.
#[verifier::rlimit(50)]
pub proof fn law_arithmetic_on_integers(
    a: ExprModel,
    b: ExprModel,
    c: ExprModel,
    x: int,
    y: int,
    t: Tree,
    here: Here,
    env: Surroundings,
)
    requires
        makes(a, of_int(x), t, here, env),
        makes(b, of_int(y), t, here, env),
        makes(c, of_int(x * y), t, here, env),
        is_held(x),
        is_held(y),
        is_held(x + y),
        is_held(x - y),
        is_held(x * y),
    ensures
        is_the_integer(eval(joined(BinaryOp::Add, a, b), t, here, env), x + y),
        is_the_integer(eval(joined(BinaryOp::Subtract, a, b), t, here, env), x - y),
        is_the_integer(eval(joined(BinaryOp::Multiply, a, b), t, here, env), x * y),
        y != 0 ==> is_the_integer(eval(joined(BinaryOp::Divide, c, b), t, here, env), x),
        y != 0 ==> is_the_integer(
            eval(joined(BinaryOp::Modulo, a, b), t, here, env),
            if x < 0 {
                -((-x) % (if y < 0 {
                    -y
                } else {
                    y
                }))
            } else {
                x % (if y < 0 {
                    -y
                } else {
                    y
                })
            },
        ),
        is_the_integer(eval(ExprModel::Negate(Box::new(a)), t, here, env), -x),
{
    law_integers_add_up(x, y);
    law_integers_multiply_and_divide(x, y);
    lemma_held(x + y);
    lemma_held(x - y);
    law_order_is_that_of_values(of_int(x + y), of_int(x + y));
    law_order_is_that_of_values(of_int(x - y), of_int(x - y));
}

/// Numbers stand to each other as their values do, and a number that is none
/// stands to nothing.
#[verifier::rlimit(50)]
pub proof fn law_numbers_are_compared(
    a: ExprModel,
    b: ExprModel,
    x: Number,
    y: Number,
    t: Tree,
    here: Here,
    env: Surroundings,
)
    requires
        gives(a, ValueModel::Number(x), t, here, env),
        gives(b, ValueModel::Number(y), t, here, env),
        is_finite(x) || is_nan(x),
        is_finite(y) || is_nan(y),
    ensures
        ({
            let (u, v) = (signed_units(x), signed_units(y));
            let some = is_finite(x) && is_finite(y);
            &&& eval(joined(BinaryOp::Less, a, b), t, here, env) == verdict(some && u < v)
            &&& eval(joined(BinaryOp::LessEqual, a, b), t, here, env) == verdict(some && u <= v)
            &&& eval(joined(BinaryOp::Greater, a, b), t, here, env) == verdict(some && u > v)
            &&& eval(joined(BinaryOp::GreaterEqual, a, b), t, here, env) == verdict(
                some && u >= v,
            )
            &&& eval(joined(BinaryOp::Equal, a, b), t, here, env) == verdict(some && u == v)
            &&& eval(joined(BinaryOp::NotEqual, a, b), t, here, env) == verdict(
                !(some && u == v),
            )
        }),
{
    law_order_is_that_of_values(x, y);
    law_order_is_that_of_values(y, x);
}

/// What is no number is ordered as the number it converts to.
pub proof fn law_others_are_ordered_as_numbers(
    a: ExprModel,
    b: ExprModel,
    v: ValueModel,
    w: ValueModel,
    x: Number,
    y: Number,
    t: Tree,
    here: Here,
    env: Surroundings,
)
    requires
        gives(a, v, t, here, env),
        gives(b, w, t, here, env),
        !(v is NodeSet),
        !(w is NodeSet),
        number_of(v, t) == Ok::<Number, Seq<char>>(x),
        number_of(w, t) == Ok::<Number, Seq<char>>(y),
        is_finite(x) || is_nan(x),
        is_finite(y) || is_nan(y),
    ensures
        ({
            let (u, s) = (signed_units(x), signed_units(y));
            let some = is_finite(x) && is_finite(y);
            &&& eval(joined(BinaryOp::Less, a, b), t, here, env) == verdict(some && u < s)
            &&& eval(joined(BinaryOp::LessEqual, a, b), t, here, env) == verdict(some && u <= s)
            &&& eval(joined(BinaryOp::Greater, a, b), t, here, env) == verdict(some && u > s)
            &&& eval(joined(BinaryOp::GreaterEqual, a, b), t, here, env) == verdict(
                some && u >= s,
            )
        }),
{
    law_order_is_that_of_values(x, y);
    law_order_is_that_of_values(y, x);
}

/// `and` holds where both sides count as true, `or` where one does.
#[verifier::rlimit(50)]
pub proof fn law_both_and_either(
    a: ExprModel,
    b: ExprModel,
    v: ValueModel,
    w: ValueModel,
    t: Tree,
    here: Here,
    env: Surroundings,
)
    requires
        gives(a, v, t, here, env),
        gives(b, w, t, here, env),
    ensures
        eval(joined(BinaryOp::And, a, b), t, here, env) == verdict(
            counts_as_true(v) && counts_as_true(w),
        ),
        eval(joined(BinaryOp::Or, a, b), t, here, env) == verdict(
            counts_as_true(v) || counts_as_true(w),
        ),
{
    lemma_truth(v);
    lemma_truth(w);
}

proof fn lemma_truth(v: ValueModel)
    ensures
        truth(v) <==> counts_as_true(v),
{
    lemma_held(0);
    match v {
        ValueModel::String(s) => {
            if s.len() == 0 {
                assert(s =~= Seq::<char>::empty());
            }
        },
        ValueModel::NodeSet(nodes) => {
            if nodes.len() == 0 {
                assert(nodes =~= Seq::<NodeId>::empty());
            }
        },
        _ => {},
    }
}

proof fn lemma_some_pair(t: Tree, left: Seq<NodeId>, i: int, right: Seq<NodeId>, differs: bool)
    requires
        t.all_in(left),
        t.all_in(right),
        0 <= i <= left.len(),
    ensures
        some_pair(t, left, i, right, differs) == Ok::<bool, Seq<char>>(
            exists|j: int, k: int|
                i <= j < left.len() && 0 <= k < right.len() && (t.string_value(
                    #[trigger] left[j],
                ) == t.string_value(#[trigger] right[k])) != differs,
        ),
    decreases left.len() - i,
{
    if i < left.len() {
        assert(t.has(left[i]));
        let s = t.string_value(left[i]);
        assert(string_at(t, left[i]) == Ok::<Seq<char>, Seq<char>>(s));
        lemma_some_text(t, right, 0, s, differs);
        lemma_some_pair(t, left, i + 1, right, differs);
        if some_text(t, right, 0, s, differs) == Ok::<bool, Seq<char>>(true) {
            let k = choose|k: int|
                0 <= k < right.len() && (t.string_value(#[trigger] right[k]) == s) != differs;
            assert((t.string_value(left[i]) == t.string_value(right[k])) != differs);
        } else {
            assert forall|j: int, k: int|
                i <= j < left.len() && 0 <= k < right.len() && (t.string_value(#[trigger] left[j])
                    == t.string_value(#[trigger] right[k])) != differs implies j > i by {}
        }
    }
}

/// Equality of what are not nodes: against a boolean both sides count as
/// true or both do not; else against a number they are the same number; else
/// they are the same text. `!=` holds where `=` does not.
#[verifier::rlimit(50)]
pub proof fn law_values_are_compared(
    a: ExprModel,
    b: ExprModel,
    v: ValueModel,
    w: ValueModel,
    t: Tree,
    here: Here,
    env: Surroundings,
)
    requires
        gives(a, v, t, here, env),
        gives(b, w, t, here, env),
        !(v is NodeSet),
        !(w is NodeSet),
    ensures
        ({
            let alike = if v is Boolean || w is Boolean {
                counts_as_true(v) == counts_as_true(w)
            } else {
                match (v, w) {
                    (ValueModel::Number(x), ValueModel::Number(y)) => equal(x, y),
                    (ValueModel::Number(x), ValueModel::String(s)) => equal(
                        x,
                        number_of_text(s),
                    ),
                    (ValueModel::String(s), ValueModel::Number(y)) => equal(
                        number_of_text(s),
                        y,
                    ),
                    (ValueModel::String(s), ValueModel::String(r)) => s == r,
                    _ => true,
                }
            };
            &&& eval(joined(BinaryOp::Equal, a, b), t, here, env) == verdict(alike)
            &&& eval(joined(BinaryOp::NotEqual, a, b), t, here, env) == verdict(!alike)
        }),
{
    lemma_truth(v);
    lemma_truth(w);
}

/// Two sets of nodes are equal where some node of one holds what some node of
/// the other holds, and they differ where some node of one holds what some
/// node of the other does not. Against a boolean it matters only whether
/// there are nodes.
#[verifier::rlimit(50)]
pub proof fn law_node_sets_are_compared(
    a: ExprModel,
    b: ExprModel,
    c: ExprModel,
    left: Seq<NodeId>,
    right: Seq<NodeId>,
    answer: bool,
    t: Tree,
    here: Here,
    env: Surroundings,
)
    requires
        finds(a, left, t, here, env),
        finds(b, right, t, here, env),
        gives(c, ValueModel::Boolean(answer), t, here, env),
        t.all_in(left),
        t.all_in(right),
    ensures
        eval(joined(BinaryOp::Equal, a, b), t, here, env) == verdict(
            exists|j: int, k: int|
                0 <= j < left.len() && 0 <= k < right.len() && t.string_value(#[trigger] left[j])
                    == t.string_value(#[trigger] right[k]),
        ),
        eval(joined(BinaryOp::NotEqual, a, b), t, here, env) == verdict(
            exists|j: int, k: int|
                0 <= j < left.len() && 0 <= k < right.len() && t.string_value(#[trigger] left[j])
                    != t.string_value(#[trigger] right[k]),
        ),
        eval(joined(BinaryOp::Equal, a, c), t, here, env) == verdict(
            (left.len() > 0) == answer,
        ),
        eval(joined(BinaryOp::Equal, c, a), t, here, env) == verdict(
            (left.len() > 0) == answer,
        ),
        eval(joined(BinaryOp::NotEqual, a, c), t, here, env) == verdict(
            (left.len() > 0) != answer,
        ),
{
    lemma_some_pair(t, left, 0, right, false);
    lemma_some_pair(t, left, 0, right, true);
    assert(compared(
        t,
        ValueModel::NodeSet(left),
        ValueModel::NodeSet(right),
        false,
    ) == some_pair(t, left, 0, right, false));
}

/// What values are as numbers and as texts: true is one and false is zero,
/// and each is called by its name; nodes are what the first of them holds,
/// and none are an empty text.
#[verifier::rlimit(50)]
pub proof fn law_values_convert(
    answer: bool,
    s: Seq<char>,
    nodes: Seq<NodeId>,
    t: Tree,
)
    requires
        t.all_in(nodes),
    ensures
        number_of(ValueModel::Boolean(answer), t) matches Ok(n) && equal(
            n,
            of_int(
                if answer {
                    1
                } else {
                    0
                },
            ),
        ),
        text_of(ValueModel::Boolean(answer), t) == Ok::<Seq<char>, Seq<char>>(
            if answer {
                "true"@
            } else {
                "false"@
            },
        ),
        text_of(ValueModel::String(s), t) == Ok::<Seq<char>, Seq<char>>(s),
        number_of(ValueModel::String(s), t) == Ok::<Number, Seq<char>>(number_of_text(s)),
        ({
            let held = if nodes.len() == 0 {
                Seq::empty()
            } else {
                t.string_value(nodes[0])
            };
            &&& text_of(ValueModel::NodeSet(nodes), t) == Ok::<Seq<char>, Seq<char>>(held)
            &&& number_of(ValueModel::NodeSet(nodes), t) == Ok::<Number, Seq<char>>(
                number_of_text(held),
            )
        }),
{
    if nodes.len() > 0 {
        assert(t.has(nodes[0]));
    }
    lemma_ones(1);
    lemma_ones(0);
    lemma_held(1);
    lemma_held(0);
    lemma_with_sign(false, ONE as nat);
    lemma_with_sign(false, 0);
    law_one_is_one();
    law_order_is_that_of_values(with_sign(false, ONE as nat), of_int(1));
    law_integers_keep_their_order(0, 0);
}

// ---------------------------------------------------------------------------
// Paths
// ---------------------------------------------------------------------------

/// `|` gives the nodes of both sides and no others.
#[verifier::rlimit(50)]
pub proof fn law_union_has_both(
    a: ExprModel,
    b: ExprModel,
    left: Seq<NodeId>,
    right: Seq<NodeId>,
    t: Tree,
    here: Here,
    env: Surroundings,
)
    requires
        finds(a, left, t, here, env),
        finds(b, right, t, here, env),
    ensures
        eval(ExprModel::Union(Box::new(a), Box::new(b)), t, here, env) matches Ok(
            ValueModel::NodeSet(r),
        ) && forall|n: NodeId| #[trigger]
            r.contains(n) <==> left.contains(n) || right.contains(n),
{
    law_node_sets_in_document_order(t, left + right);
    assert forall|n: NodeId| (#[trigger] (left + right).contains(n)) <==> left.contains(n)
        || right.contains(n) by {
        crate::parser::parts::lemma_in_sum(left, right, n);
    }
}

/// From a node the axes lead to its children, to what it is in, to its
/// attributes, to itself, and to what is above or below it with or without
/// itself.
#[verifier::rlimit(50)]
pub proof fn law_axes_lead(t: Tree, n: NodeId, x: NodeId, env: Surroundings)
    requires
        t.has(n),
    ensures
        leads(t, n, Axis::Child, x, env) <==> t.children(n).contains(x),
        leads(t, n, Axis::Parent, x, env) <==> t.parent(n) == Some(x),
        leads(t, n, Axis::Self_, x, env) <==> x == n,
        leads(t, n, Axis::Attribute, x, env) <==> t.attributes(n).contains(x),
        leads(t, n, Axis::Descendant, x, env) <==> t.descendants(n).contains(x),
        leads(t, n, Axis::DescendantOrSelf, x, env) <==> x == n || t.descendants(n).contains(x),
        leads(t, n, Axis::Ancestor, x, env) <==> t.ancestors(n).contains(x),
        leads(t, n, Axis::AncestorOrSelf, x, env) <==> x == n || t.ancestors(n).contains(x),
{
    lemma_leads_along(t, n, Axis::Child, x, env);
    lemma_leads_along(t, n, Axis::Parent, x, env);
    lemma_leads_along(t, n, Axis::Self_, x, env);
    lemma_leads_along(t, n, Axis::Attribute, x, env);
    lemma_leads_along(t, n, Axis::Descendant, x, env);
    lemma_leads_along(t, n, Axis::DescendantOrSelf, x, env);
    lemma_leads_along(t, n, Axis::Ancestor, x, env);
    lemma_leads_along(t, n, Axis::AncestorOrSelf, x, env);
    assert(seq![n][0] == n);
    crate::parser::parts::lemma_in_sum(seq![n], t.descendants(n), x);
    crate::parser::parts::lemma_in_sum(seq![n], t.ancestors(n), x);
    if let Some(p) = t.parent(n) {
        assert(seq![p][0] == p);
    }
}

proof fn lemma_leads_along(t: Tree, n: NodeId, axis: Axis, x: NodeId, env: Surroundings)
    requires
        t.has(n),
    ensures
        leads(t, n, axis, x, env) <==> axis_nodes(t, n, axis).contains(x),
{
    lemma_along(t, n, axis, env);
    law_node_sets_in_document_order(t, axis_nodes(t, n, axis));
}

/// A named step leads where its axis does, to what has that name.
#[verifier::rlimit(50)]
pub proof fn law_named_steps_lead(
    t: Tree,
    n: NodeId,
    axis: Axis,
    name: Seq<char>,
    x: NodeId,
    env: Surroundings,
)
    requires
        t.has(n),
        t.all_in(axis_nodes(t, n, axis)),
    ensures
        ({
            let step = StepModel { axis, test: TestModel::Named(name), predicates: Seq::empty() };
            walked(seq![n], seq![step], 0, t, env) matches Ok(r) && (r.contains(x) <==> leads(
                t,
                n,
                axis,
                x,
                env,
            ) && t.name(x) == name)
        }),
{
    let step = StepModel { axis, test: TestModel::Named(name), predicates: Seq::empty() };
    let all = axis_nodes(t, n, axis);
    let nodes = seq![n];
    let steps = seq![step];
    assert(steps[0] == step && nodes[0] == n);
    lemma_leads_along(t, n, axis, x, env);
    lemma_named(t, all, name, 0, x);
    assert(all.skip(0) =~= all);
    let found = named_from(t, all, TestModel::Named(name), 0)->Ok_0;
    reveal_with_fuel(stepped, 2);
    reveal_with_fuel(walked, 2);
    assert(found + Seq::<NodeId>::empty() =~= found);
    assert(stepped(nodes, step, 0, t, env) == Ok::<Seq<NodeId>, Seq<char>>(found));
    law_node_sets_in_document_order(t, found);
}

proof fn lemma_named(t: Tree, s: Seq<NodeId>, name: Seq<char>, i: int, x: NodeId)
    requires
        t.all_in(s),
        0 <= i <= s.len(),
    ensures
        named_from(t, s, TestModel::Named(name), i) matches Ok(r) && (r.contains(x) <==> s.skip(
            i,
        ).contains(x) && t.name(x) == name),
    decreases s.len() - i,
{
    if i < s.len() {
        assert(t.has(s[i]));
        lemma_named(t, s, name, i + 1, x);
        let rest = named_from(t, s, TestModel::Named(name), i + 1)->Ok_0;
        assert(s.skip(i) =~= seq![s[i]] + s.skip(i + 1));
        crate::parser::parts::lemma_in_sum(seq![s[i]], s.skip(i + 1), x);
        crate::parser::parts::lemma_in_sum(seq![s[i]], rest, x);
        assert(seq![s[i]][0] == s[i]);
    }
}

/// An absolute path leads to the same nodes wherever it is read, and where
/// its first step names the root it goes on from there as a relative path
/// does.
#[verifier::rlimit(50)]
pub proof fn law_absolute_paths_start_at_the_root(
    steps: Seq<StepModel>,
    t: Tree,
    root: NodeId,
    here: Here,
    there: Here,
    env: Surroundings,
)
    requires
        t.root == Some(root),
    ensures
        eval(ExprModel::Path { absolute: true, steps }, t, here, env) == eval(
            ExprModel::Path { absolute: true, steps },
            t,
            there,
            env,
        ),
        steps.len() > 0 && steps[0].axis == Axis::Child && steps[0].test == TestModel::Named(
            t.name(root),
        ) && steps[0].predicates.len() == 0 && there.node == root ==> eval(
            ExprModel::Path { absolute: true, steps },
            t,
            here,
            env,
        ) == eval(ExprModel::Path { absolute: false, steps: steps.skip(1) }, t, there, env),
        steps.len() > 0 && (steps[0].axis != Axis::Child || steps[0].test != TestModel::Named(
            t.name(root),
        )) && there.node == root ==> eval(
            ExprModel::Path { absolute: true, steps },
            t,
            here,
            env,
        ) == eval(ExprModel::Path { absolute: false, steps }, t, there, env),
{
    if steps.len() > 0 {
        lemma_walk_rest(seq![root], steps, 1, t, env);
        assert(filtered(seq![root], Seq::empty(), 0, t, env) == Ok::<Seq<NodeId>, Seq<char>>(
            seq![root],
        ));
        if steps[0].predicates.len() == 0 {
            assert(steps[0].predicates =~= Seq::empty());
        }
    }
}

proof fn lemma_walk_rest(
    nodes: Seq<NodeId>,
    steps: Seq<StepModel>,
    k: int,
    t: Tree,
    env: Surroundings,
)
    requires
        1 <= k <= steps.len(),
    ensures
        walked(nodes, steps, k, t, env) == walked(nodes, steps.skip(1), k - 1, t, env),
    decreases steps.len() - k,
{
    if k < steps.len() {
        assert(steps.skip(1)[k - 1] == steps[k]);
        if let Ok(next) = stepped(nodes, steps[k], 0, t, env) {
            lemma_walk_rest(crate::eval::nodes::sorted_unique(t, next), steps, k + 1, t, env);
        }
    }
}

/// Steps are taken one after another: a path goes on from where its first
/// steps led.
#[verifier::rlimit(50)]
pub proof fn law_steps_follow_each_other(
    nodes: Seq<NodeId>,
    a: Seq<StepModel>,
    b: Seq<StepModel>,
    t: Tree,
    env: Surroundings,
)
    ensures
        walked(nodes, a + b, 0, t, env) == match walked(nodes, a, 0, t, env) {
            Ok(led) => walked(led, b, 0, t, env),
            Err(e) => Err(e),
        },
    decreases a.len(),
{
    if a.len() == 0 {
        assert(a + b =~= b);
    } else {
        let step = a[0];
        assert((a + b)[0] == step);
        assert((a + b).skip(1) =~= a.skip(1) + b);
        if let Ok(next) = stepped(nodes, step, 0, t, env) {
            let s = crate::eval::nodes::sorted_unique(t, next);
            lemma_walk_rest(s, a + b, 1, t, env);
            lemma_walk_rest(s, a, 1, t, env);
            law_steps_follow_each_other(s, a.skip(1), b, t, env);
        }
    }
}

/// A path that starts at a table leads where the same path leads from the
/// table itself.
#[verifier::rlimit(50)]
pub proof fn law_tables_are_walked_as_elements(
    id: Seq<char>,
    steps: Seq<StepModel>,
    t: Tree,
    here: Here,
    env: Surroundings,
)
    requires
        t.instance_named(id) is Some,
    ensures
        ({
            let call = ExprModel::Function {
                name: "instance"@,
                args: seq![ExprModel::Literal(id)],
            };
            let table = Here { node: t.instance_named(id)->0, ..here };
            eval(
                ExprModel::Filter { base: Box::new(call), predicates: Seq::empty(), steps },
                t,
                here,
                env,
            ) == eval(ExprModel::Path { absolute: false, steps }, t, table, env)
        }),
{
    let args = seq![ExprModel::Literal(id)];
    assert(args[0] == ExprModel::Literal(id));
    assert(table_id(args, t, here, env) == Ok::<Seq<char>, Seq<char>>(id));
    let start = seq![t.instance_named(id)->0];
    assert(filtered(start, Seq::empty(), 0, t, env) == Ok::<Seq<NodeId>, Seq<char>>(start));
}

/// The table that is found by a name has that name, and none before it in
/// the document has.
#[verifier::rlimit(50)]
pub proof fn law_first_table_is_found(t: Tree, root: NodeId, id: Seq<char>)
    requires
        t.root == Some(root),
    ensures
        ({
            let all = seq![root] + t.descendants(root);
            match t.instance_named(id) {
                Some(n) => exists|k: int|
                    0 <= k < all.len() && #[trigger] all[k] == n && t.is_table(n, id)
                        && forall|j: int| 0 <= j < k ==> !t.is_table(#[trigger] all[j], id),
                None => forall|j: int|
                    0 <= j < all.len() ==> !t.is_table(#[trigger] all[j], id),
            }
        }),
{
    lemma_first_table(t, seq![root] + t.descendants(root), id);
}

proof fn lemma_first_table(t: Tree, s: Seq<NodeId>, id: Seq<char>)
    ensures
        match t.first_table(s, id) {
            Some(n) => exists|k: int|
                0 <= k < s.len() && #[trigger] s[k] == n && t.is_table(n, id) && forall|j: int|
                    0 <= j < k ==> !t.is_table(#[trigger] s[j], id),
            None => forall|j: int| 0 <= j < s.len() ==> !t.is_table(#[trigger] s[j], id),
        },
    decreases s.len(),
{
    if s.len() > 0 {
        if t.is_table(s[0], id) {
            assert(s[0] == t.first_table(s, id)->0);
        } else {
            let rest = s.skip(1);
            lemma_first_table(t, rest, id);
            match t.first_table(rest, id) {
                Some(n) => {
                    let k = choose|k: int|
                        0 <= k < rest.len() && #[trigger] rest[k] == n && t.is_table(n, id)
                            && forall|j: int| 0 <= j < k ==> !t.is_table(#[trigger] rest[j], id);
                    assert(s[k + 1] == n);
                    assert forall|j: int| 0 <= j < k + 1 implies !t.is_table(
                        #[trigger] s[j],
                        id,
                    ) by {
                        if j > 0 {
                            assert(rest[j - 1] == s[j]);
                        }
                    }
                },
                None => {
                    assert forall|j: int| 0 <= j < s.len() implies !t.is_table(
                        #[trigger] s[j],
                        id,
                    ) by {
                        if j > 0 {
                            assert(rest[j - 1] == s[j]);
                        }
                    }
                },
            }
        }
    }
}

// ---------------------------------------------------------------------------
// Predicates
// ---------------------------------------------------------------------------

/// What a predicate comes to at the node at a place of a list.
pub open spec fn judged_at(
    p: ExprModel,
    nodes: Seq<NodeId>,
    i: int,
    t: Tree,
    env: Surroundings,
) -> Result<ValueModel, Seq<char>> {
    eval(p, t, Here { node: nodes[i], position: (i + 1) as nat, size: nodes.len() }, env)
}

/// Whether a predicate that comes to a value keeps the node at a place,
/// counted from 1: a number keeps the one at that place, anything else those
/// where it counts as true.
pub open spec fn is_chosen(v: ValueModel, place: int) -> bool {
    match v {
        ValueModel::Number(n) => equal(n, of_int(place)),
        _ => counts_as_true(v),
    }
}

/// A predicate keeps those nodes where it says so, each judged at its own
/// place in the list, and leaves out the rest.
#[verifier::rlimit(50)]
pub proof fn law_predicate_keeps_what_it_says(
    nodes: Seq<NodeId>,
    p: ExprModel,
    said: Seq<ValueModel>,
    x: NodeId,
    t: Tree,
    env: Surroundings,
)
    requires
        said.len() == nodes.len(),
        forall|i: int|
            0 <= i < nodes.len() ==> judged_at(p, nodes, i, t, env) == Ok::<ValueModel, Seq<char>>(
                #[trigger] said[i],
            ),
    ensures
        filtered(nodes, seq![p], 0, t, env) matches Ok(r) && (r.contains(x) <==> exists|i: int|
            0 <= i < nodes.len() && nodes[i] == x && is_chosen(#[trigger] said[i], i + 1)),
{
    lemma_kept(nodes, p, said, 0, x, t, env);
    assert(seq![p][0] == p);
    reveal_with_fuel(filtered, 2);
}

proof fn lemma_kept(
    nodes: Seq<NodeId>,
    p: ExprModel,
    said: Seq<ValueModel>,
    k: int,
    x: NodeId,
    t: Tree,
    env: Surroundings,
)
    requires
        0 <= k <= nodes.len(),
        said.len() == nodes.len(),
        forall|i: int|
            0 <= i < nodes.len() ==> judged_at(p, nodes, i, t, env) == Ok::<ValueModel, Seq<char>>(
                #[trigger] said[i],
            ),
    ensures
        kept(nodes, p, k, t, env) matches Ok(r) && (r.contains(x) <==> exists|i: int|
            k <= i < nodes.len() && nodes[i] == x && is_chosen(#[trigger] said[i], i + 1)),
    decreases nodes.len() - k,
{
    if k < nodes.len() {
        lemma_kept(nodes, p, said, k + 1, x, t, env);
        assert(judged_at(p, nodes, k, t, env) == Ok::<ValueModel, Seq<char>>(said[k]));
        lemma_truth(said[k]);
        assert(keeps(said[k], k) <==> is_chosen(said[k], k + 1));
        let rest = kept(nodes, p, k + 1, t, env)->Ok_0;
        crate::parser::parts::lemma_in_sum(seq![nodes[k]], rest, x);
        assert(seq![nodes[k]][0] == nodes[k]);
        if nodes[k] == x && is_chosen(said[k], k + 1) {
            assert(exists|i: int|
                k <= i < nodes.len() && nodes[i] == x && is_chosen(#[trigger] said[i], i + 1));
        }
    }
}

} // verus!
