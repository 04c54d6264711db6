//! Calculations that look rows up in a table.
//!
//! `instance('id')/root/item[name = /data/key]/label` reads the rows of a
//! table, which stay as they are, and the answers that its predicates name.
//! It is ordered after those answers as any other calculation is, and so it
//! settles with them.

use crate::eval::frame::{
    all_read_same, holds_same, lemma_below_same, lemma_called_same, lemma_compared_same,
    lemma_named_same, lemma_sorted_same, lemma_standing_same, lemma_value_elsewhere,
    looks_at_arguments, reads_same, same_shape,
};
use crate::eval::nodes::{law_node_sets_in_document_order, named_from, sorted_unique};
use crate::eval::value::ValueModel;
use crate::eval::{eval, filtered, kept, results, stepped, table_id, walked, Here, Surroundings};
use crate::functions::{builtin, text_result};
use crate::parser::ast::{Axis, BinaryOp, ExprModel, StepModel};
use crate::parser::parts::lemma_in_sum;
use crate::rules::binding::BindingModel;
use crate::rules::checking::{at, nodes_for};
use crate::rules::form::{
    form_surroundings, lone_element, model_of, tables_wf, with_document, with_tables, FormModel,
    MODEL_ROOT,
};
use crate::rules::live::form_calculations;
use crate::rules::order::{depends, last_bound, ordering};
use crate::rules::paths::{path_text, read_by, read_by_all, read_by_steps};
use crate::rules::settling::{
    counts, document_size, is_answered, is_bound_once, is_kept_by, is_model, is_plain, is_reached,
    is_rooted, is_settled, law_form_calculations_settle, lemma_first_element, lemma_last_bound,
    lemma_model_rooted, lemma_named_part, lemma_place_kept, lemma_plain_path, lemma_with_document,
    lemma_written, model_size, named, path_names, tables_size,
};
use crate::text::join;
use crate::tree::places::{
    extends, is_at, lemma_child_at, lemma_descendant_past, lemma_one_place,
};
use crate::tree::{NodeId, Tree};
use vstd::prelude::*;

verus! {

// ---------------------------------------------------------------------------
// What a lookup reads
// ---------------------------------------------------------------------------

/// Whether a node stands in a table: it is one, or below one.
pub open spec fn is_in_table(t: Tree, root: NodeId, n: NodeId) -> bool {
    t.has(n) && exists|names: Seq<Seq<char>>|
        names.len() > 0 && names[0] == "instance"@ && #[trigger] is_at(t, root, names, n)
}

/// Whether an expression calls for a table, by name, that stands right under
/// the root of a document.
pub open spec fn calls_table(e: ExprModel, t: Tree, root: NodeId) -> bool {
    &&& e matches ExprModel::Function { name, args }
    &&& name == "instance"@
    &&& args.len() == 1
    &&& args[0] matches ExprModel::Literal(id)
    &&& t.instance_named(id) matches Some(n)
    &&& is_in_table(t, root, n)
}

/// Whether an expression reads plain paths, and rows of tables by what plain
/// paths lead to. Inside a predicate of a table, a relative path goes down
/// from the row.
pub open spec fn reads_rows(
    e: ExprModel,
    from: Seq<Seq<char>>,
    inside: bool,
    t: Tree,
    root: NodeId,
) -> bool
    decreases e,
{
    match e {
        ExprModel::Negate(inner) => reads_rows(*inner, from, inside, t, root),
        ExprModel::Union(left, right) => reads_rows(*left, from, inside, t, root) && reads_rows(
            *right,
            from,
            inside,
            t,
            root,
        ),
        ExprModel::Binary { op, left, right } => reads_rows(*left, from, inside, t, root)
            && reads_rows(*right, from, inside, t, root),
        ExprModel::Path { absolute, steps } => if absolute || !inside {
            is_plain(absolute, steps, from, t.name(root))
        } else {
            all_row_steps(steps, from, t, root)
        },
        ExprModel::Function { name, args } => {
            &&& builtin(name) matches Some(b) ==> looks_at_arguments(b, args.len())
            &&& all_read_rows(args, from, inside, t, root)
        },
        ExprModel::Filter { base, predicates, steps } => calls_table(*base, t, root)
            && all_read_rows(predicates, from, true, t, root) && all_row_steps(
            steps,
            from,
            t,
            root,
        ),
        _ => true,
    }
}

pub open spec fn all_read_rows(
    s: Seq<ExprModel>,
    from: Seq<Seq<char>>,
    inside: bool,
    t: Tree,
    root: NodeId,
) -> bool
    decreases s,
{
    forall|i: int| 0 <= i < s.len() ==> reads_rows(#[trigger] s[i], from, inside, t, root)
}

/// Whether a step goes down to what has a name, or stays.
pub open spec fn is_row_step(s: StepModel, from: Seq<Seq<char>>, t: Tree, root: NodeId) -> bool
    decreases s,
{
    (s.axis == Axis::Child && s.test is Named || s.axis == Axis::Self_) && all_read_rows(
        s.predicates,
        from,
        true,
        t,
        root,
    )
}

pub open spec fn all_row_steps(
    s: Seq<StepModel>,
    from: Seq<Seq<char>>,
    t: Tree,
    root: NodeId,
) -> bool
    decreases s,
{
    forall|i: int| 0 <= i < s.len() ==> is_row_step(#[trigger] s[i], from, t, root)
}

/// Whether no path of an expression leads to a question or to anything it
/// stands in; or, with `itself`, none but such as lead to the question
/// itself.
pub open spec fn passes_by(
    e: ExprModel,
    from: Seq<Seq<char>>,
    inside: bool,
    question: Seq<Seq<char>>,
    itself: bool,
) -> bool
    decreases e,
{
    match e {
        ExprModel::Negate(inner) => passes_by(*inner, from, inside, question, itself),
        ExprModel::Union(left, right) => passes_by(*left, from, inside, question, itself)
            && passes_by(*right, from, inside, question, itself),
        ExprModel::Binary { op, left, right } => passes_by(*left, from, inside, question, itself)
            && passes_by(*right, from, inside, question, itself),
        ExprModel::Path { absolute, steps } => if absolute || !inside {
            named(absolute, steps, from) matches Some(names) ==> extends(question, names)
                ==> itself && names == question
        } else {
            steps_pass_by(steps, from, question, itself)
        },
        ExprModel::Function { name, args } => counts_plainly(name, args, inside) || all_pass_by(
            args,
            from,
            inside,
            question,
            itself,
        ),
        ExprModel::Filter { base, predicates, steps } => all_pass_by(
            predicates,
            from,
            true,
            question,
            itself,
        ) && steps_pass_by(steps, from, question, itself),
        _ => true,
    }
}

/// Whether an expression counts what a plain path leads to, which it does
/// without looking at what is there.
pub open spec fn counts_plainly(name: Seq<char>, args: Seq<ExprModel>, inside: bool) -> bool {
    counts(name, args) && (args[0]->absolute || !inside)
}

pub open spec fn all_pass_by(
    s: Seq<ExprModel>,
    from: Seq<Seq<char>>,
    inside: bool,
    question: Seq<Seq<char>>,
    itself: bool,
) -> bool
    decreases s,
{
    forall|i: int|
        0 <= i < s.len() ==> passes_by(#[trigger] s[i], from, inside, question, itself)
}

pub open spec fn steps_pass_by(
    s: Seq<StepModel>,
    from: Seq<Seq<char>>,
    question: Seq<Seq<char>>,
    itself: bool,
) -> bool
    decreases s,
{
    forall|i: int|
        0 <= i < s.len() ==> step_passes_by(#[trigger] s[i], from, question, itself)
}

pub open spec fn step_passes_by(
    s: StepModel,
    from: Seq<Seq<char>>,
    question: Seq<Seq<char>>,
    itself: bool,
) -> bool
    decreases s,
{
    all_pass_by(s.predicates, from, true, question, itself)
}

// ---------------------------------------------------------------------------
// Evaluation where a question changes
// ---------------------------------------------------------------------------

/// Whether two documents are the same but for a question, and what it stands
/// in.
spec fn differs_at(t: Tree, u: Tree, root: NodeId, question: Seq<Seq<char>>) -> bool {
    &&& is_rooted(t, root)
    &&& same_shape(t, u)
    &&& question.len() > 0
    &&& question[0] != "instance"@
    &&& forall|names: Seq<Seq<char>>, n: NodeId| #[trigger]
        is_at(t, root, names, n) && !extends(question, names) ==> holds_same(t, u, n)
    &&& forall|id: Seq<char>| #[trigger] u.instance_named(id) == t.instance_named(id)
}

proof fn lemma_table_kept(t: Tree, u: Tree, root: NodeId, question: Seq<Seq<char>>, n: NodeId)
    requires
        differs_at(t, u, root, question),
        is_in_table(t, root, n),
    ensures
        holds_same(t, u, n),
{
    let names = choose|names: Seq<Seq<char>>|
        names.len() > 0 && names[0] == "instance"@ && #[trigger] is_at(t, root, names, n);
    if extends(question, names) {
        assert(question.take(names.len() as int)[0] == question[0]);
    }
}

/// Whether nodes all stand in tables.
spec fn all_in_tables(t: Tree, root: NodeId, s: Seq<NodeId>) -> bool {
    forall|i: int| 0 <= i < s.len() ==> is_in_table(t, root, #[trigger] s[i])
}

spec fn is_context(t: Tree, root: NodeId, from: Seq<Seq<char>>, inside: bool, n: NodeId) -> bool {
    if inside {
        is_in_table(t, root, n)
    } else {
        t.has(n) && is_at(t, root, from, n)
    }
}

/// An expression that reads rows and plain paths, and passes a question by,
/// comes to the same where that question changes.
#[verifier::rlimit(40)]
proof fn lemma_rows_same(
    e: ExprModel,
    from: Seq<Seq<char>>,
    inside: bool,
    t: Tree,
    u: Tree,
    root: NodeId,
    question: Seq<Seq<char>>,
    here: Here,
    env: Surroundings,
)
    requires
        differs_at(t, u, root, question),
        is_context(t, root, from, inside, here.node),
        reads_rows(e, from, inside, t, root),
        passes_by(e, from, inside, question, false),
    ensures
        eval(e, t, here, env) == eval(e, u, here, env),
        reads_same(t, u, eval(e, t, here, env)),
    decreases e, 1nat,
{
    match e {
        ExprModel::Negate(inner) => {
            lemma_rows_same(*inner, from, inside, t, u, root, question, here, env);
            if let Ok(ValueModel::NodeSet(nodes)) = eval(*inner, t, here, env) {
                if nodes.len() > 0 {
                    assert(holds_same(t, u, nodes[0]));
                }
            }
        },
        ExprModel::Union(left, right) => {
            lemma_rows_same(*left, from, inside, t, u, root, question, here, env);
            lemma_rows_same(*right, from, inside, t, u, root, question, here, env);
            lemma_union_same(*left, *right, t, u, here, env);
        },
        ExprModel::Binary { op, left, right } => {
            lemma_rows_same(*left, from, inside, t, u, root, question, here, env);
            lemma_rows_same(*right, from, inside, t, u, root, question, here, env);
            lemma_binary_same(op, *left, *right, t, u, here, env);
        },
        ExprModel::Path { absolute, steps } => {
            if absolute || !inside {
                lemma_plain_same(absolute, steps, from, inside, t, u, root, here, env);
                if let Ok(ValueModel::NodeSet(nodes)) = eval(e, t, here, env) {
                    let names = named(absolute, steps, from)->0;
                    assert(!extends(question, names));
                    assert forall|i: int| 0 <= i < nodes.len() implies holds_same(
                        t,
                        u,
                        #[trigger] nodes[i],
                    ) by {
                        assert(nodes.contains(nodes[i]));
                        assert(is_at(t, root, names, nodes[i]));
                    }
                }
            } else {
                let start = seq![here.node];
                assert(all_in_tables(t, root, start));
                lemma_walked_same(start, steps, 0, from, t, u, root, question, env);
                if let Ok(nodes) = walked(start, steps, 0, t, env) {
                    lemma_tables_kept(t, u, root, question, nodes);
                }
            }
        },
        ExprModel::Function { name, args } => {
            let r = results(args, t, here, env);
            if counts_plainly(name, args, inside) {
                assert(all_read_rows(args, from, inside, t, root));
                assert(reads_rows(args[0], from, inside, t, root));
                if let ExprModel::Path { absolute, steps } = args[0] {
                    lemma_plain_same(absolute, steps, from, inside, t, u, root, here, env);
                }
                assert(results(args, u, here, env) =~= r);
            } else {
                lemma_results_same(args, from, inside, t, u, root, question, here, env);
                lemma_called_same(name, args, r, t, u, here, env);
            }
        },
        ExprModel::Filter { base, predicates, steps } => {
            lemma_lookup_same(*base, predicates, steps, from, t, u, root, question, here, env);
        },
        _ => {},
    }
}

proof fn lemma_union_same(
    left: ExprModel,
    right: ExprModel,
    t: Tree,
    u: Tree,
    here: Here,
    env: Surroundings,
)
    requires
        t.wf(),
        same_shape(t, u),
        eval(left, t, here, env) == eval(left, u, here, env),
        eval(right, t, here, env) == eval(right, u, here, env),
        reads_same(t, u, eval(left, t, here, env)),
        reads_same(t, u, eval(right, t, here, env)),
    ensures
        ({
            let e = ExprModel::Union(Box::new(left), Box::new(right));
            &&& eval(e, t, here, env) == eval(e, u, here, env)
            &&& reads_same(t, u, eval(e, t, here, env))
        }),
{
    if let (Ok(ValueModel::NodeSet(a)), Ok(ValueModel::NodeSet(b))) = (
        eval(left, t, here, env),
        eval(right, t, here, env),
    ) {
        lemma_sorted_same(t, u, a + b);
        law_node_sets_in_document_order(t, a + b);
        let s = sorted_unique(t, a + b);
        assert forall|i: int| 0 <= i < s.len() implies holds_same(t, u, #[trigger] s[i]) by {
            assert(s.contains(s[i]));
            let k = choose|k: int| 0 <= k < (a + b).len() && (a + b)[k] == s[i];
            if k < a.len() {
                assert(holds_same(t, u, a[k]));
            } else {
                assert(holds_same(t, u, b[k - a.len()]));
            }
        }
    }
}

proof fn lemma_binary_same(
    op: BinaryOp,
    left: ExprModel,
    right: ExprModel,
    t: Tree,
    u: Tree,
    here: Here,
    env: Surroundings,
)
    requires
        t.wf(),
        same_shape(t, u),
        eval(left, t, here, env) == eval(left, u, here, env),
        eval(right, t, here, env) == eval(right, u, here, env),
        reads_same(t, u, eval(left, t, here, env)),
        reads_same(t, u, eval(right, t, here, env)),
    ensures
        ({
            let e = ExprModel::Binary { op, left: Box::new(left), right: Box::new(right) };
            &&& eval(e, t, here, env) == eval(e, u, here, env)
            &&& reads_same(t, u, eval(e, t, here, env))
        }),
{
    let a = eval(left, t, here, env);
    let b = eval(right, t, here, env);
    if let Ok(ValueModel::NodeSet(nodes)) = a {
        if nodes.len() > 0 {
            assert(holds_same(t, u, nodes[0]));
        }
    }
    if let Ok(ValueModel::NodeSet(nodes)) = b {
        if nodes.len() > 0 {
            assert(holds_same(t, u, nodes[0]));
        }
    }
    if let (Ok(x), Ok(y)) = (a, b) {
        lemma_compared_same(t, u, x, y, false);
        lemma_compared_same(t, u, x, y, true);
        lemma_standing_same(t, u, op, x, y);
    }
}

proof fn lemma_lookup_same(
    base: ExprModel,
    predicates: Seq<ExprModel>,
    steps: Seq<StepModel>,
    from: Seq<Seq<char>>,
    t: Tree,
    u: Tree,
    root: NodeId,
    question: Seq<Seq<char>>,
    here: Here,
    env: Surroundings,
)
    requires
        differs_at(t, u, root, question),
        calls_table(base, t, root),
        all_read_rows(predicates, from, true, t, root),
        all_row_steps(steps, from, t, root),
        all_pass_by(predicates, from, true, question, false),
        steps_pass_by(steps, from, question, false),
    ensures
        ({
            let e = ExprModel::Filter { base: Box::new(base), predicates, steps };
            &&& eval(e, t, here, env) == eval(e, u, here, env)
            &&& reads_same(t, u, eval(e, t, here, env))
        }),
    decreases (ExprModel::Filter { base: Box::new(base), predicates, steps }), 0nat,
{
    let e = ExprModel::Filter { base: Box::new(base), predicates, steps };
    assert(decreases_to!(e => predicates));
    assert(decreases_to!(e => steps));
    if let ExprModel::Function { name, args } = base {
        if let ExprModel::Literal(id) = args[0] {
            let start = seq![t.instance_named(id)->0];
            assert(u.instance_named(id) == t.instance_named(id));
            assert(table_id(args, t, here, env) == Ok::<Seq<char>, Seq<char>>(id));
            assert(table_id(args, u, here, env) == Ok::<Seq<char>, Seq<char>>(id));
            assert(all_in_tables(t, root, start));
            lemma_filtered_same(start, predicates, 0, from, t, u, root, question, env);
            if let Ok(rows) = filtered(start, predicates, 0, t, env) {
                lemma_walked_same(rows, steps, 0, from, t, u, root, question, env);
                if let Ok(nodes) = walked(rows, steps, 0, t, env) {
                    lemma_tables_kept(t, u, root, question, nodes);
                }
            }
        }
    }
}

proof fn lemma_tables_kept(
    t: Tree,
    u: Tree,
    root: NodeId,
    question: Seq<Seq<char>>,
    nodes: Seq<NodeId>,
)
    requires
        differs_at(t, u, root, question),
        all_in_tables(t, root, nodes),
    ensures
        forall|i: int| 0 <= i < nodes.len() ==> holds_same(t, u, #[trigger] nodes[i]),
{
    assert forall|i: int| 0 <= i < nodes.len() implies holds_same(t, u, #[trigger] nodes[i]) by {
        lemma_table_kept(t, u, root, question, nodes[i]);
    }
}

/// A plain path leads to the same nodes, wherever it is read.
proof fn lemma_plain_same(
    absolute: bool,
    steps: Seq<StepModel>,
    from: Seq<Seq<char>>,
    inside: bool,
    t: Tree,
    u: Tree,
    root: NodeId,
    here: Here,
    env: Surroundings,
)
    requires
        is_rooted(t, root),
        same_shape(t, u),
        absolute || !inside,
        is_context(t, root, from, inside, here.node),
        is_plain(absolute, steps, from, t.name(root)),
    ensures
        eval(ExprModel::Path { absolute, steps }, t, here, env) == eval(
            ExprModel::Path { absolute, steps },
            u,
            here,
            env,
        ),
        eval(
            ExprModel::Path { absolute, steps },
            t,
            here,
            env,
        ) matches Ok(v) ==> v matches ValueModel::NodeSet(nodes) && forall|n: NodeId| #[trigger]
            nodes.contains(n) ==> is_at(t, root, named(absolute, steps, from)->0, n),
{
    if inside {
        let top = Here { node: root, ..here };
        let none = Seq::<Seq<char>>::empty();
        assert(is_at(t, root, none, root));
        assert(named(true, steps, none) == named(true, steps, from));
        lemma_plain_path(t, u, root, true, steps, none, top, env);
        let e = ExprModel::Path { absolute, steps };
        assert(eval(e, t, here, env) == eval(e, t, top, env));
        assert(eval(e, u, here, env) == eval(e, u, top, env));
    } else {
        lemma_plain_path(t, u, root, absolute, steps, from, here, env);
    }
}

proof fn lemma_results_same(
    args: Seq<ExprModel>,
    from: Seq<Seq<char>>,
    inside: bool,
    t: Tree,
    u: Tree,
    root: NodeId,
    question: Seq<Seq<char>>,
    here: Here,
    env: Surroundings,
)
    requires
        differs_at(t, u, root, question),
        is_context(t, root, from, inside, here.node),
        all_read_rows(args, from, inside, t, root),
        all_pass_by(args, from, inside, question, false),
    ensures
        results(args, u, here, env) == results(args, t, here, env),
        all_read_same(t, u, results(args, t, here, env)),
    decreases args, 0nat,
{
    let r = results(args, t, here, env);
    assert forall|i: int| 0 <= i < args.len() implies eval(#[trigger] args[i], t, here, env)
        == eval(args[i], u, here, env) && reads_same(t, u, eval(args[i], t, here, env)) by {
        assert(decreases_to!(args => args[i]));
        lemma_rows_same(args[i], from, inside, t, u, root, question, here, env);
    }
    assert(results(args, u, here, env) =~= r);
    assert forall|i: int| 0 <= i < r.len() implies reads_same(t, u, #[trigger] r[i]) by {
        assert(r[i] == eval(args[i], t, here, env));
    }
}

proof fn lemma_kept_same(
    nodes: Seq<NodeId>,
    predicate: ExprModel,
    i: int,
    from: Seq<Seq<char>>,
    t: Tree,
    u: Tree,
    root: NodeId,
    question: Seq<Seq<char>>,
    env: Surroundings,
)
    requires
        differs_at(t, u, root, question),
        all_in_tables(t, root, nodes),
        reads_rows(predicate, from, true, t, root),
        passes_by(predicate, from, true, question, false),
        0 <= i <= nodes.len(),
    ensures
        kept(nodes, predicate, i, t, env) == kept(nodes, predicate, i, u, env),
        kept(nodes, predicate, i, t, env) matches Ok(r) ==> all_in_tables(t, root, r),
    decreases predicate, 2 + nodes.len() - i,
{
    if i < nodes.len() {
        let here = Here { node: nodes[i], position: (i + 1) as nat, size: nodes.len() };
        assert(is_in_table(t, root, nodes[i]));
        lemma_rows_same(predicate, from, true, t, u, root, question, here, env);
        lemma_kept_same(nodes, predicate, i + 1, from, t, u, root, question, env);
        if let Ok(rest) = kept(nodes, predicate, i + 1, t, env) {
            let r = seq![nodes[i]] + rest;
            assert forall|k: int| 0 <= k < r.len() implies is_in_table(t, root, #[trigger] r[k]) by {
                if k > 0 {
                    assert(r[k] == rest[k - 1]);
                }
            }
        }
    }
}

proof fn lemma_filtered_same(
    nodes: Seq<NodeId>,
    predicates: Seq<ExprModel>,
    k: int,
    from: Seq<Seq<char>>,
    t: Tree,
    u: Tree,
    root: NodeId,
    question: Seq<Seq<char>>,
    env: Surroundings,
)
    requires
        differs_at(t, u, root, question),
        all_in_tables(t, root, nodes),
        all_read_rows(predicates, from, true, t, root),
        all_pass_by(predicates, from, true, question, false),
        0 <= k <= predicates.len(),
    ensures
        filtered(nodes, predicates, k, t, env) == filtered(nodes, predicates, k, u, env),
        filtered(nodes, predicates, k, t, env) matches Ok(r) ==> all_in_tables(t, root, r),
    decreases predicates, predicates.len() - k,
{
    if k < predicates.len() {
        assert(decreases_to!(predicates => predicates[k]));
        assert(reads_rows(predicates[k], from, true, t, root));
        lemma_kept_same(nodes, predicates[k], 0, from, t, u, root, question, env);
        if let Ok(next) = kept(nodes, predicates[k], 0, t, env) {
            lemma_filtered_same(next, predicates, k + 1, from, t, u, root, question, env);
        }
    }
}

proof fn lemma_stepped_same(
    nodes: Seq<NodeId>,
    step: StepModel,
    i: int,
    from: Seq<Seq<char>>,
    t: Tree,
    u: Tree,
    root: NodeId,
    question: Seq<Seq<char>>,
    env: Surroundings,
)
    requires
        differs_at(t, u, root, question),
        all_in_tables(t, root, nodes),
        is_row_step(step, from, t, root),
        step_passes_by(step, from, question, false),
        0 <= i <= nodes.len(),
    ensures
        stepped(nodes, step, i, t, env) == stepped(nodes, step, i, u, env),
        stepped(nodes, step, i, t, env) matches Ok(r) ==> all_in_tables(t, root, r),
    decreases step, nodes.len() - i,
{
    if i < nodes.len() {
        let n = nodes[i];
        assert(is_in_table(t, root, n));
        assert(u.nodes[n.0 as int].children == t.nodes[n.0 as int].children);
        let all = if step.axis == Axis::Child {
            t.children(n)
        } else {
            seq![n]
        };
        lemma_named_same(t, u, all, step.test, 0);
        lemma_stepped_same(nodes, step, i + 1, from, t, u, root, question, env);
        if let Ok(matching) = named_from(t, all, step.test, 0) {
            assert forall|k: int| 0 <= k < matching.len() implies is_in_table(
                t,
                root,
                #[trigger] matching[k],
            ) by {
                let m = matching[k];
                lemma_named_part(t, all, step.test, 0, m);
                assert(matching.contains(m));
                assert(all.contains(m));
                if step.axis == Axis::Child {
                    let names = choose|names: Seq<Seq<char>>|
                        names.len() > 0 && names[0] == "instance"@ && #[trigger] is_at(
                            t,
                            root,
                            names,
                            n,
                        );
                    lemma_child_at(t, root, names, n, m);
                    let more = names.push(t.name(m));
                    assert(more[0] == "instance"@ && is_at(t, root, more, m));
                }
            }
            lemma_filtered_same(matching, step.predicates, 0, from, t, u, root, question, env);
            if let (Ok(mine), Ok(rest)) = (
                filtered(matching, step.predicates, 0, t, env),
                stepped(nodes, step, i + 1, t, env),
            ) {
                let r = mine + rest;
                assert forall|k: int| 0 <= k < r.len() implies is_in_table(
                    t,
                    root,
                    #[trigger] r[k],
                ) by {
                    if k < mine.len() {
                        assert(r[k] == mine[k]);
                    } else {
                        assert(r[k] == rest[k - mine.len()]);
                    }
                }
            }
        }
    }
}

proof fn lemma_walked_same(
    nodes: Seq<NodeId>,
    steps: Seq<StepModel>,
    k: int,
    from: Seq<Seq<char>>,
    t: Tree,
    u: Tree,
    root: NodeId,
    question: Seq<Seq<char>>,
    env: Surroundings,
)
    requires
        differs_at(t, u, root, question),
        all_in_tables(t, root, nodes),
        all_row_steps(steps, from, t, root),
        steps_pass_by(steps, from, question, false),
        0 <= k <= steps.len(),
    ensures
        walked(nodes, steps, k, t, env) == walked(nodes, steps, k, u, env),
        walked(nodes, steps, k, t, env) matches Ok(r) ==> all_in_tables(t, root, r),
    decreases steps, steps.len() - k,
{
    if k < steps.len() {
        assert(decreases_to!(steps => steps[k]));
        assert(is_row_step(steps[k], from, t, root));
        assert(step_passes_by(steps[k], from, question, false));
        lemma_stepped_same(nodes, steps[k], 0, from, t, u, root, question, env);
        if let Ok(found) = stepped(nodes, steps[k], 0, t, env) {
            lemma_sorted_same(t, u, found);
            law_node_sets_in_document_order(t, found);
            let s = sorted_unique(t, found);
            assert forall|i: int| 0 <= i < s.len() implies is_in_table(t, root, #[trigger] s[i]) by {
                assert(s.contains(s[i]));
                let j = choose|j: int| 0 <= j < found.len() && found[j] == s[i];
                assert(is_in_table(t, root, found[j]));
            }
            lemma_walked_same(s, steps, k + 1, from, t, u, root, question, env);
        }
    }
}

// ---------------------------------------------------------------------------
// Tables stay
// ---------------------------------------------------------------------------

proof fn lemma_first_table_same(t: Tree, u: Tree, s: Seq<NodeId>, id: Seq<char>)
    requires
        same_shape(t, u),
        t.all_in(s),
        forall|p: NodeId, i: int|
            t.has(p) && 0 <= i < t.attributes(p).len() ==> u.value(
                #[trigger] t.attributes(p)[i],
            ) == t.value(t.attributes(p)[i]),
        t.linked(),
    ensures
        u.first_table(s, id) == t.first_table(s, id),
    decreases s.len(),
{
    if s.len() > 0 {
        let n = s[0];
        assert(t.has(n));
        assert(u.nodes[n.0 as int].name == t.nodes[n.0 as int].name);
        assert(u.nodes[n.0 as int].attributes == t.nodes[n.0 as int].attributes);
        assert forall|i: int| 0 <= i < t.attributes(n).len() implies u.name(
            #[trigger] t.attributes(n)[i],
        ) == t.name(t.attributes(n)[i]) by {
            let a = t.attributes(n)[i];
            assert(t.nodes[n.0 as int].attributes[i] == a);
            assert(t.has(a));
            assert(u.nodes[a.0 as int].name == t.nodes[a.0 as int].name);
        }
        assert(u.is_table(n, id) == t.is_table(n, id)) by {
            if t.is_table(n, id) {
                let i = choose|i: int|
                    0 <= i < t.attributes(n).len() && t.name(#[trigger] t.attributes(n)[i])
                        == "id"@ && t.value(t.attributes(n)[i]) == id;
                assert(u.name(u.attributes(n)[i]) == "id"@);
            }
            if u.is_table(n, id) {
                let i = choose|i: int|
                    0 <= i < u.attributes(n).len() && u.name(#[trigger] u.attributes(n)[i])
                        == "id"@ && u.value(u.attributes(n)[i]) == id;
                assert(t.name(t.attributes(n)[i]) == "id"@);
            }
        }
        assert forall|i: int| 0 <= i < s.skip(1).len() implies t.has(#[trigger] s.skip(1)[i]) by {
            assert(s.skip(1)[i] == s[i + 1]);
        }
        lemma_first_table_same(t, u, s.skip(1), id);
    }
}

/// Tables are found where they were, whatever elements are answered with.
proof fn lemma_tables_found(t: Tree, u: Tree, root: NodeId, id: Seq<char>)
    requires
        is_rooted(t, root),
        t.all_apart(),
        is_answered(t, u, root),
        u.wf(),
    ensures
        u.instance_named(id) == t.instance_named(id),
{
    assert forall|p: NodeId, i: int| t.has(p) && 0 <= i < t.attributes(p).len() implies u.value(
        #[trigger] t.attributes(p)[i],
    ) == t.value(t.attributes(p)[i]) by {
        let a = t.attributes(p)[i];
        assert(t.attributes_apart(p));
        assert(t.nodes[p.0 as int].attributes[i] == a);
        assert(t.has(a));
        if u.value(a) != t.value(a) {
            assert(is_reached(t, root, a));
            let names = choose|names: Seq<Seq<char>>| is_at(t, root, names, a);
            assert(t.parent(a) == Some(p));
        }
    }
    let s = seq![root] + t.descendants(root);
    lemma_below_same(t, u, root, 0);
    lemma_sorted_same(t, u, t.below(root, 0, false));
    t.lemma_descendants_in(root);
    assert forall|i: int| 0 <= i < s.len() implies t.has(#[trigger] s[i]) by {
        if i > 0 {
            assert(s[i] == t.descendants(root)[i - 1]);
        }
    }
    lemma_first_table_same(t, u, s, id);
}

/// What changes where a question is answered is the question and what it
/// stands in.
proof fn lemma_answer_differs(
    t: Tree,
    root: NodeId,
    question: Seq<Seq<char>>,
    m: NodeId,
    value: Seq<char>,
)
    requires
        is_rooted(t, root),
        t.all_apart(),
        t.has(m),
        question.len() > 0,
        question[0] != "instance"@,
        is_at(t, root, question, m),
    ensures
        differs_at(t, t.with_value(m, value), root, question),
{
    let u = t.with_value(m, value);
    lemma_written(t, root, m, value);
    assert forall|names: Seq<Seq<char>>, n: NodeId| #[trigger]
        is_at(t, root, names, n) && !extends(question, names) implies holds_same(t, u, n) by {
        if n == m {
            lemma_one_place(t, root, names, question, m);
            assert(question.take(question.len() as int) == question);
        }
        if t.has(n) {
            if t.descendants(n).contains(m) {
                lemma_descendant_past(t, root, names, n, m);
                let more = choose|more: Seq<Seq<char>>|
                    extends(more, names) && #[trigger] is_at(t, root, more, m);
                lemma_one_place(t, root, more, question, m);
            }
            lemma_value_elsewhere(t, m, value, n);
        }
    }
    assert(is_answered(t, u, root)) by {
        assert forall|n: NodeId| t.has(n) && #[trigger] u.value(n) != t.value(n) implies is_reached(
            t,
            root,
            n,
        ) by {
            if n != m {
                assert(u.nodes[n.0 as int] == t.nodes[n.0 as int]);
            }
        }
    }
    assert forall|id: Seq<char>| #[trigger] u.instance_named(id) == t.instance_named(id) by {
        lemma_tables_found(t, u, root, id);
    }
}

// ---------------------------------------------------------------------------
// Lookups and the order of calculations
// ---------------------------------------------------------------------------

/// What an expression does not read, by the paths that are read off it, it
/// passes by.
proof fn lemma_unread(
    e: ExprModel,
    path: Seq<char>,
    inside: bool,
    question: Seq<Seq<char>>,
)
    requires
        passes_by(e, path_names(path), inside, question, true),
        !read_by(e, path).contains("/"@ + join(question, "/"@)),
    ensures
        passes_by(e, path_names(path), inside, question, false),
    decreases e, 0nat,
{
    let text = "/"@ + join(question, "/"@);
    let from = path_names(path);
    match e {
        ExprModel::Negate(inner) => lemma_unread(*inner, path, inside, question),
        ExprModel::Union(left, right) => {
            lemma_in_sum(read_by(*left, path), read_by(*right, path), text);
            lemma_unread(*left, path, inside, question);
            lemma_unread(*right, path, inside, question);
        },
        ExprModel::Binary { op, left, right } => {
            lemma_in_sum(read_by(*left, path), read_by(*right, path), text);
            lemma_unread(*left, path, inside, question);
            lemma_unread(*right, path, inside, question);
        },
        ExprModel::Path { absolute, steps } => {
            let own = match path_text(absolute, steps, path) {
                Some(p) => seq![p],
                None => Seq::empty(),
            };
            lemma_in_sum(own, read_by_steps(steps, 0, path), text);
            if absolute || !inside {
                if let Some(names) = named(absolute, steps, from) {
                    assert(path_text(absolute, steps, path) == Some("/"@ + join(names, "/"@)));
                    if extends(question, names) {
                        assert(own[0] == text);
                        assert(own.contains(text));
                    }
                }
            } else {
                assert(steps_pass_by(steps, from, question, true));
                lemma_unread_steps(steps, 0, path, question);
                assert(steps_pass_by(steps, from, question, false));
            }
        },
        ExprModel::Function { name, args } => {
            if !counts_plainly(name, args, inside) {
                assert(all_pass_by(args, from, inside, question, true));
                lemma_unread_all(args, 0, path, inside, question);
                assert(all_pass_by(args, from, inside, question, false));
            }
        },
        ExprModel::Filter { base, predicates, steps } => {
            let a = read_by(*base, path);
            let b = read_by_all(predicates, 0, path);
            lemma_in_sum(a + b, read_by_steps(steps, 0, path), text);
            lemma_in_sum(a, b, text);
            assert(all_pass_by(predicates, from, true, question, true));
            assert(steps_pass_by(steps, from, question, true));
            lemma_unread_all(predicates, 0, path, true, question);
            lemma_unread_steps(steps, 0, path, question);
            assert(all_pass_by(predicates, from, true, question, false));
            assert(steps_pass_by(steps, from, question, false));
        },
        _ => {},
    }
}

proof fn lemma_unread_all(
    s: Seq<ExprModel>,
    k: int,
    path: Seq<char>,
    inside: bool,
    question: Seq<Seq<char>>,
)
    requires
        0 <= k <= s.len(),
        all_pass_by(s, path_names(path), inside, question, true),
        !read_by_all(s, k, path).contains("/"@ + join(question, "/"@)),
    ensures
        forall|i: int|
            k <= i < s.len() ==> passes_by(
                #[trigger] s[i],
                path_names(path),
                inside,
                question,
                false,
            ),
    decreases s, s.len() - k,
{
    if k < s.len() {
        assert(decreases_to!(s => s[k]));
        lemma_in_sum(
            read_by(s[k], path),
            read_by_all(s, k + 1, path),
            "/"@ + join(question, "/"@),
        );
        assert(passes_by(s[k], path_names(path), inside, question, true));
        lemma_unread(s[k], path, inside, question);
        lemma_unread_all(s, k + 1, path, inside, question);
    }
}

proof fn lemma_unread_steps(
    s: Seq<StepModel>,
    k: int,
    path: Seq<char>,
    question: Seq<Seq<char>>,
)
    requires
        0 <= k <= s.len(),
        steps_pass_by(s, path_names(path), question, true),
        !read_by_steps(s, k, path).contains("/"@ + join(question, "/"@)),
    ensures
        forall|i: int|
            k <= i < s.len() ==> step_passes_by(
                #[trigger] s[i],
                path_names(path),
                question,
                false,
            ),
    decreases s, s.len() - k,
{
    if k < s.len() {
        assert(decreases_to!(s => s[k]));
        assert(step_passes_by(s[k], path_names(path), question, true));
        lemma_in_sum(
            read_by_all(s[k].predicates, 0, path),
            read_by_steps(s, k + 1, path),
            "/"@ + join(question, "/"@),
        );
        lemma_unread_all(s[k].predicates, 0, path, true, question);
        lemma_unread_steps(s, k + 1, path, question);
    }
}

/// Whether the paths that a calculation reads, those in the predicates of
/// its lookups too, lead to questions and not to what questions stand in,
/// and none leads to its own.
pub open spec fn reads_questions(bindings: Seq<BindingModel>, i: int) -> bool {
    forall|j: int|
        0 <= j < bindings.len() && (#[trigger] bindings[j]).calculate is Some ==> passes_by(
            bindings[i].calculate->0,
            path_names(bindings[i].path),
            false,
            path_names(bindings[j].path),
            j != i,
        )
}

proof fn lemma_rows_elsewhere(
    e: ExprModel,
    from: Seq<Seq<char>>,
    inside: bool,
    t: Tree,
    u: Tree,
    root: NodeId,
)
    requires
        same_shape(t, u),
        t.wf(),
        t.root == Some(root),
        reads_rows(e, from, inside, t, root),
        forall|id: Seq<char>| #[trigger] u.instance_named(id) == t.instance_named(id),
    ensures
        reads_rows(e, from, inside, u, root),
    decreases e,
{
    assert(t.has(root));
    assert(u.nodes[root.0 as int].name == t.nodes[root.0 as int].name);
    match e {
        ExprModel::Negate(inner) => lemma_rows_elsewhere(*inner, from, inside, t, u, root),
        ExprModel::Union(left, right) => {
            lemma_rows_elsewhere(*left, from, inside, t, u, root);
            lemma_rows_elsewhere(*right, from, inside, t, u, root);
        },
        ExprModel::Binary { op, left, right } => {
            lemma_rows_elsewhere(*left, from, inside, t, u, root);
            lemma_rows_elsewhere(*right, from, inside, t, u, root);
        },
        ExprModel::Path { absolute, steps } => {
            if !absolute && inside {
                lemma_steps_elsewhere(steps, from, t, u, root);
            }
        },
        ExprModel::Function { name, args } => lemma_all_elsewhere(args, from, inside, t, u, root),
        ExprModel::Filter { base, predicates, steps } => {
            lemma_all_elsewhere(predicates, from, true, t, u, root);
            lemma_steps_elsewhere(steps, from, t, u, root);
            if let ExprModel::Function { name, args } = *base {
                if let ExprModel::Literal(id) = args[0] {
                    let n = t.instance_named(id)->0;
                    assert(u.instance_named(id) == Some(n));
                    let names = choose|names: Seq<Seq<char>>|
                        names.len() > 0 && names[0] == "instance"@ && #[trigger] is_at(
                            t,
                            root,
                            names,
                            n,
                        );
                    lemma_place_kept(t, u, root, names, names.len() as int, n);
                    assert(is_at(u, root, names, n));
                }
            }
        },
        _ => {},
    }
}

proof fn lemma_all_elsewhere(
    s: Seq<ExprModel>,
    from: Seq<Seq<char>>,
    inside: bool,
    t: Tree,
    u: Tree,
    root: NodeId,
)
    requires
        same_shape(t, u),
        t.wf(),
        t.root == Some(root),
        all_read_rows(s, from, inside, t, root),
        forall|id: Seq<char>| #[trigger] u.instance_named(id) == t.instance_named(id),
    ensures
        all_read_rows(s, from, inside, u, root),
    decreases s,
{
    assert forall|i: int| 0 <= i < s.len() implies reads_rows(
        #[trigger] s[i],
        from,
        inside,
        u,
        root,
    ) by {
        assert(decreases_to!(s => s[i]));
        lemma_rows_elsewhere(s[i], from, inside, t, u, root);
    }
}

proof fn lemma_steps_elsewhere(
    s: Seq<StepModel>,
    from: Seq<Seq<char>>,
    t: Tree,
    u: Tree,
    root: NodeId,
)
    requires
        same_shape(t, u),
        t.wf(),
        t.root == Some(root),
        all_row_steps(s, from, t, root),
        forall|id: Seq<char>| #[trigger] u.instance_named(id) == t.instance_named(id),
    ensures
        all_row_steps(s, from, u, root),
    decreases s,
{
    assert forall|i: int| 0 <= i < s.len() implies is_row_step(#[trigger] s[i], from, u, root) by {
        assert(decreases_to!(s => s[i]));
        assert(is_row_step(s[i], from, t, root));
        lemma_all_elsewhere(s[i].predicates, from, true, t, u, root);
    }
}

/// A calculation that looks rows up by answers is moved only by what it
/// depends on: where a key is itself calculated, the lookup depends on that
/// calculation, and else it comes to the same whatever the other one does.
pub proof fn law_lookups_follow_their_keys(
    bindings: Seq<BindingModel>,
    t: Tree,
    root: NodeId,
    i: int,
    j: int,
    env: Surroundings,
)
    requires
        is_rooted(t, root),
        t.all_apart(),
        0 <= i < bindings.len(),
        bindings[i].calculate is Some,
        reads_rows(bindings[i].calculate->0, path_names(bindings[i].path), false, t, root),
        reads_questions(bindings, i),
        0 <= j < bindings.len(),
        bindings[j].calculate is Some,
        is_bound_once(bindings, j, t.name(root)),
        path_names(bindings[j].path)[0] != "instance"@,
        !depends(bindings, i, j),
    ensures
        is_kept_by(bindings[i], bindings[j], t, root, env),
{
    let b = bindings[i];
    let other = bindings[j];
    let e = b.calculate->0;
    let from = path_names(b.path);
    let question = path_names(other.path);
    assert(passes_by(e, from, false, question, j != i));
    if j != i {
        let r = read_by(e, b.path);
        if r.contains("/"@ + join(question, "/"@)) {
            let k = choose|k: int| 0 <= k < r.len() && r[k] == other.path;
            assert(read_by(e, bindings[i].path)[k] == other.path);
            lemma_last_bound(bindings, j, bindings.len() as int);
            assert(last_bound(bindings, bindings[j].path, bindings.len() as int) == Some(j));
            assert(depends(bindings, i, j));
        }
        lemma_unread(e, b.path, false, question);
    }
    assert forall|u: Tree, n: NodeId, m: NodeId, value: Seq<char>|
        #![trigger eval(e, u.with_value(m, value), at(n), env)]
        is_answered(t, u, root) && is_rooted(u, root) && u.has(n) && is_at(u, root, from, n)
            && u.has(m) && is_at(u, root, question, m) implies text_result(
        eval(e, u.with_value(m, value), at(n), env),
        u.with_value(m, value),
    ) == text_result(eval(e, u, at(n), env), u) by {
        let v = u.with_value(m, value);
        assert forall|id: Seq<char>| #[trigger] u.instance_named(id) == t.instance_named(id) by {
            lemma_tables_found(t, u, root, id);
        }
        lemma_rows_elsewhere(e, from, false, t, u, root);
        assert(u.all_apart()) by {
            assert forall|p: NodeId| #[trigger] u.has(p) implies u.attributes_apart(p) by {
                assert(t.has(p));
                assert(t.attributes_apart(p));
                assert(u.nodes[p.0 as int].attributes == t.nodes[p.0 as int].attributes);
                assert(u.nodes[p.0 as int].children == t.nodes[p.0 as int].children);
                assert forall|x: int| 0 <= x < u.attributes(p).len() implies u.parent(
                    #[trigger] u.attributes(p)[x],
                ) == Some(p) && u.children(u.attributes(p)[x]).len() == 0 && u.attributes(
                    u.attributes(p)[x],
                ).len() == 0 && !u.children(p).contains(u.attributes(p)[x]) by {
                    let a = t.attributes(p)[x];
                    assert(t.nodes[p.0 as int].attributes[x] == a);
                    assert(t.has(a));
                    assert(u.nodes[a.0 as int].parent == t.nodes[a.0 as int].parent);
                    assert(u.nodes[a.0 as int].children == t.nodes[a.0 as int].children);
                    assert(u.nodes[a.0 as int].attributes == t.nodes[a.0 as int].attributes);
                    assert(t.parent(t.attributes(p)[x]) == Some(p));
                }
            }
        }
        lemma_answer_differs(u, root, question, m, value);
        lemma_rows_same(e, from, false, u, v, root, question, at(n), env);
        if let Ok(ValueModel::NodeSet(nodes)) = eval(e, u, at(n), env) {
            if nodes.len() > 0 {
                assert(holds_same(u, v, nodes[0]));
            }
        }
    }
}

// ---------------------------------------------------------------------------
// Forms
// ---------------------------------------------------------------------------

proof fn lemma_document_apart(t: Tree, source: Tree)
    requires
        is_model(t),
        t.all_apart(),
        source.wf(),
        t.nodes.len() + document_size(source) <= usize::MAX,
    ensures
        with_document(t, source).all_apart(),
{
    if let Some(root) = source.root {
        let id = NodeId(t.nodes.len() as usize);
        let u = t.adopted(source, root);
        t.lemma_adopted_linked(source, root);
        t.lemma_adopted(t, source, root);
        t.lemma_adopted_apart(source, root);
        assert(u.nodes[0] == t.nodes[0]);
        if u.is_attribute(NodeId(0)) {
            let p = choose|p: NodeId| #[trigger]
                u.has(p) && u.attributes(p).contains(NodeId(0));
            let k = choose|k: int|
                0 <= k < u.attributes(p).len() && u.attributes(p)[k] == NodeId(0);
            assert(u.attributes_apart(p));
            assert(u.parent(u.attributes(p)[k]) == Some(p));
        }
        u.lemma_appended_apart(NodeId(0), id);
    }
}

proof fn lemma_tables_apart(t: Tree, tables: Seq<(Seq<char>, Tree)>, i: int)
    requires
        is_model(t),
        t.all_apart(),
        tables_wf(tables),
        0 <= i,
        t.nodes.len() + tables_size(tables, i) <= usize::MAX,
    ensures
        with_tables(t, tables, i).all_apart(),
    decreases tables.len() - i,
{
    if i < tables.len() {
        assert(tables[i].1.wf());
        lemma_with_document(t, tables[i].1);
        lemma_document_apart(t, tables[i].1);
        lemma_tables_apart(with_document(t, tables[i].1), tables, i + 1);
    }
}

proof fn lemma_same_nodes_apart(t: Tree, u: Tree)
    requires
        t.all_apart(),
        u.nodes == t.nodes,
    ensures
        u.all_apart(),
{
    assert forall|p: NodeId| #[trigger] u.has(p) implies u.attributes_apart(p) by {
        assert(t.has(p));
        assert(t.attributes_apart(p));
        assert forall|i: int| 0 <= i < u.attributes(p).len() implies u.parent(
            #[trigger] u.attributes(p)[i],
        ) == Some(p) && u.children(u.attributes(p)[i]).len() == 0 && u.attributes(
            u.attributes(p)[i],
        ).len() == 0 && !u.children(p).contains(u.attributes(p)[i]) by {
            assert(t.parent(t.attributes(p)[i]) == Some(p));
        }
    }
}

/// In a model no attribute is an element.
proof fn lemma_model_apart(form: FormModel, t: Tree)
    requires
        form.wf(),
        t.wf(),
        model_size(form, t) <= usize::MAX,
    ensures
        model_of(form, t).all_apart(),
{
    lemma_first_element();
    let first = lone_element(MODEL_ROOT@);
    assert(first.all_apart()) by {
        assert(first.nodes[0].attributes.len() == 0);
    }
    lemma_with_document(first, t);
    lemma_document_apart(first, t);
    let second = with_document(first, t);
    lemma_tables_apart(second, form.tables, 0);
    let third = with_tables(second, form.tables, 0);
    lemma_same_nodes_apart(third, third.reindexed());
}

/// The calculations of a form settle in a single pass over the answers,
/// those too that look rows up by answers that are themselves calculated:
/// each calculated node then holds what its calculation comes to, or its
/// calculation fails.
///
/// This is so of calculations whose paths lead to questions, to none but
/// questions, and not to their own, in the predicates of lookups as
/// elsewhere.
pub proof fn law_form_lookups_settle(
    form: FormModel,
    t: Tree,
    today: Seq<char>,
    now: Seq<char>,
    i: int,
    n: NodeId,
)
    requires
        form.wf(),
        ordering(form.rules.bindings) == Ok::<Seq<int>, Seq<char>>(form.rules.order),
        t.wf(),
        model_size(form, t) <= usize::MAX,
        forall|j: int|
            0 <= j < form.rules.bindings.len() && (
            #[trigger] form.rules.bindings[j]).calculate is Some ==> is_bound_once(
                form.rules.bindings,
                j,
                MODEL_ROOT@,
            ) && path_names(form.rules.bindings[j].path)[0] != "instance"@,
        0 <= i < form.rules.bindings.len(),
        form.rules.bindings[i].calculate is Some,
        reads_rows(
            form.rules.bindings[i].calculate->0,
            path_names(form.rules.bindings[i].path),
            false,
            model_of(form, t),
            NodeId(0),
        ),
        reads_questions(form.rules.bindings, i),
        nodes_for(
            form.rules.bindings[i].path,
            model_of(form, t),
            form_surroundings(form.tables, today, now),
        ).contains(n),
    ensures
        is_settled(
            form.rules.bindings[i],
            n,
            form_calculations(form, t, today, now).tree,
            form_surroundings(form.tables, today, now),
        ),
{
    let bindings = form.rules.bindings;
    let m = model_of(form, t);
    let env = form_surroundings(form.tables, today, now);
    lemma_model_rooted(form, t);
    lemma_model_apart(form, t);
    assert forall|j: int|
        #![trigger depends(bindings, i, j)]
        0 <= j < bindings.len() && bindings[j].calculate is Some && !depends(
            bindings,
            i,
            j,
        ) implies is_kept_by(bindings[i], bindings[j], m, NodeId(0), env) by {
        assert(is_bound_once(bindings, j, MODEL_ROOT@));
        law_lookups_follow_their_keys(bindings, m, NodeId(0), i, j, env);
    }
    law_form_calculations_settle(form, t, today, now, i, n);
}

} // verus!
