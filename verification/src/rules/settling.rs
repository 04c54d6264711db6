//! Calculations that settle.
//!
//! Calculations run in the order of what they read, so that one which feeds
//! another settles in a single pass.

use crate::eval::frame::{
    all_read_same, holds_same, lemma_called_same, lemma_compared_same, lemma_named_same,
    lemma_sorted_same, lemma_standing_same, lemma_value_elsewhere, looks_at_arguments, reads_same, same_shape,
};
use crate::eval::nodes::{law_node_sets_in_document_order, named_from, sorted_unique};
use crate::eval::value::ValueModel;
use crate::eval::{eval, filtered, results, stepped, walked, Here, Surroundings};
use crate::functions::{builtin, text_result};
use crate::parser::ast::{Axis, ExprModel, StepModel, TestModel};
use crate::parser::grammar::parse_model;
use crate::rules::binding::BindingModel;
use crate::rules::checking::{at, calculation_finding, nodes_for, present};
use crate::rules::form::{
    form_surroundings, lone_element, model_of, tables_wf, with_document, with_tables, FormModel,
    MODEL_ROOT,
};
use crate::rules::live::{form_calculations, Working};
use crate::rules::order::{depends, last_bound, law_order_respects_dependencies, ordering};
use crate::rules::paths::{child_step, path_text, read_by, read_by_all, read_by_steps, stepped_parts};
use crate::text::{join, split_on};
use crate::tree::places::{
    extends, is_at, lemma_child_at, lemma_descendant_past, lemma_one_place, lemma_parent_at,
};
use crate::tree::{bare_node, NodeId, NodeKind, Ranking, Tree};
use vstd::prelude::*;

verus! {

// ---------------------------------------------------------------------------
// What an expression reads
// ---------------------------------------------------------------------------

/// Whether a step leads to children of a name, to the parent or nowhere.
pub open spec fn is_plain_step(s: StepModel) -> bool {
    &&& s.predicates.len() == 0
    &&& match s.axis {
        Axis::Child => s.test is Named,
        Axis::Parent | Axis::Self_ => true,
        _ => false,
    }
}

/// The names that lead to what a path names, from a question that is itself
/// reached by `from`.
pub open spec fn named(absolute: bool, steps: Seq<StepModel>, from: Seq<Seq<char>>) -> Option<
    Seq<Seq<char>>,
> {
    match stepped_parts(
        if absolute {
            Seq::empty()
        } else {
            from
        },
        steps,
        0,
    ) {
        Some(parts) => if parts.len() > 0 {
            Some(parts)
        } else {
            None
        },
        None => None,
    }
}

/// Whether a path goes by plain steps to what can be named, below the root.
pub open spec fn is_plain(
    absolute: bool,
    steps: Seq<StepModel>,
    from: Seq<Seq<char>>,
    top: Seq<char>,
) -> bool {
    &&& forall|i: int| 0 <= i < steps.len() ==> is_plain_step(#[trigger] steps[i])
    &&& absolute && steps.len() > 0 && steps[0].axis == Axis::Child ==> steps[0].test
        != TestModel::Named(top)
    &&& named(absolute, steps, from) is Some
}

/// Whether an expression counts nodes, which it does without looking at what
/// they hold.
pub open spec fn counts(name: Seq<char>, args: Seq<ExprModel>) -> bool {
    name == "count"@ && args.len() == 1 && args[0] is Path
}

/// Whether an expression reads plain paths alone: no predicate, no lookup
/// table, nothing of the question it stands at.
pub open spec fn reads_plainly(e: ExprModel, from: Seq<Seq<char>>, top: Seq<char>) -> bool
    decreases e, 0nat,
{
    match e {
        ExprModel::Negate(inner) => reads_plainly(*inner, from, top),
        ExprModel::Union(left, right) => reads_plainly(*left, from, top) && reads_plainly(
            *right,
            from,
            top,
        ),
        ExprModel::Binary { op, left, right } => reads_plainly(*left, from, top) && reads_plainly(
            *right,
            from,
            top,
        ),
        ExprModel::Path { absolute, steps } => is_plain(absolute, steps, from, top),
        ExprModel::Function { name, args } => {
            &&& builtin(name) matches Some(b) ==> looks_at_arguments(b, args.len())
            &&& all_read_plainly(args, 0, from, top)
        },
        ExprModel::Filter { base, predicates, steps } => false,
        _ => true,
    }
}

pub open spec fn all_read_plainly(
    s: Seq<ExprModel>,
    k: int,
    from: Seq<Seq<char>>,
    top: Seq<char>,
) -> bool
    decreases s, s.len() - k,
{
    k < 0 || k >= s.len() || (reads_plainly(s[k], from, top) && all_read_plainly(
        s,
        k + 1,
        from,
        top,
    ))
}

/// Whether an expression looks at what stands at some names.
pub open spec fn looks_at(e: ExprModel, from: Seq<Seq<char>>, names: Seq<Seq<char>>) -> bool
    decreases e, 0nat,
{
    match e {
        ExprModel::Negate(inner) => looks_at(*inner, from, names),
        ExprModel::Union(left, right) => looks_at(*left, from, names) || looks_at(
            *right,
            from,
            names,
        ),
        ExprModel::Binary { op, left, right } => looks_at(*left, from, names) || looks_at(
            *right,
            from,
            names,
        ),
        ExprModel::Path { absolute, steps } => named(absolute, steps, from) == Some(names),
        ExprModel::Function { name, args } => !counts(name, args) && any_looks_at(
            args,
            0,
            from,
            names,
        ),
        _ => false,
    }
}

pub open spec fn any_looks_at(
    s: Seq<ExprModel>,
    k: int,
    from: Seq<Seq<char>>,
    names: Seq<Seq<char>>,
) -> bool
    decreases s, s.len() - k,
{
    0 <= k < s.len() && (looks_at(s[k], from, names) || any_looks_at(s, k + 1, from, names))
}

// ---------------------------------------------------------------------------
// Where plain paths lead
// ---------------------------------------------------------------------------

/// Whether nodes of a document are all reached by some names.
pub open spec fn all_at(t: Tree, root: NodeId, names: Seq<Seq<char>>, s: Seq<NodeId>) -> bool {
    forall|n: NodeId| #[trigger] s.contains(n) ==> t.has(n) && is_at(t, root, names, n)
}

/// A document that can be walked from its root both ways.
pub open spec fn is_rooted(t: Tree, root: NodeId) -> bool {
    &&& t.wf()
    &&& t.upright()
    &&& t.root == Some(root)
    &&& t.parent(root) is None
}

pub proof fn lemma_named_part(t: Tree, s: Seq<NodeId>, test: TestModel, i: int, n: NodeId)
    requires
        0 <= i <= s.len(),
    ensures
        named_from(t, s, test, i) matches Ok(r) ==> (r.contains(n) ==> s.contains(n) && (
        test matches TestModel::Named(name) ==> t.name(n) == name)),
    decreases s.len() - i,
{
    if i < s.len() {
        lemma_named_part(t, s, test, i + 1, n);
        if let Ok(r) = named_from(t, s, test, i) {
            if r.contains(n) {
                let k = choose|k: int| 0 <= k < r.len() && r[k] == n;
                let rest = named_from(t, s, test, i + 1)->Ok_0;
                if r == seq![s[i]] + rest {
                    if k == 0 {
                        assert(s[i] == n);
                    } else {
                        assert(rest[k - 1] == n);
                    }
                } else {
                    assert(r == rest);
                }
            }
        }
    }
}

/// The names after a plain step.
spec fn after_step(names: Seq<Seq<char>>, step: StepModel) -> Option<Seq<Seq<char>>> {
    match (step.axis, step.test) {
        (Axis::Child, TestModel::Named(name)) => Some(names.push(name)),
        (Axis::Parent, _) => if names.len() == 0 {
            None
        } else {
            Some(names.drop_last())
        },
        _ => Some(names),
    }
}

proof fn lemma_plain_step(
    t: Tree,
    u: Tree,
    root: NodeId,
    nodes: Seq<NodeId>,
    names: Seq<Seq<char>>,
    step: StepModel,
    i: int,
    env: Surroundings,
)
    requires
        is_rooted(t, root),
        same_shape(t, u),
        is_plain_step(step),
        all_at(t, root, names, nodes),
        after_step(names, step) is Some,
        0 <= i <= nodes.len(),
    ensures
        stepped(nodes, step, i, t, env) == stepped(nodes, step, i, u, env),
        stepped(nodes, step, i, t, env) matches Ok(r) ==> all_at(
            t,
            root,
            after_step(names, step)->0,
            r,
        ),
    decreases nodes.len() - i,
{
    let next = after_step(names, step)->0;
    if i < nodes.len() {
        let n = nodes[i];
        assert(nodes.contains(n));
        assert(u.nodes[n.0 as int].children == t.nodes[n.0 as int].children);
        assert(u.nodes[n.0 as int].parent == t.nodes[n.0 as int].parent);
        let all = match step.axis {
            Axis::Child => t.children(n),
            Axis::Parent => match t.parent(n) {
                Some(p) => seq![p],
                None => Seq::empty(),
            },
            _ => seq![n],
        };
        lemma_named_same(t, u, all, step.test, 0);
        lemma_plain_step(t, u, root, nodes, names, step, i + 1, env);
        if let Ok(mine) = named_from(t, all, step.test, 0) {
            assert(filtered(mine, step.predicates, 0, t, env) == Ok::<Seq<NodeId>, Seq<char>>(mine));
            assert(filtered(mine, step.predicates, 0, u, env) == Ok::<Seq<NodeId>, Seq<char>>(mine));
            if let Ok(rest) = stepped(nodes, step, i + 1, t, env) {
                let r = mine + rest;
                assert forall|m: NodeId| #[trigger] r.contains(m) implies t.has(m) && is_at(
                    t,
                    root,
                    next,
                    m,
                ) by {
                    let k = choose|k: int| 0 <= k < r.len() && r[k] == m;
                    if k < mine.len() {
                        assert(mine[k] == m);
                        lemma_named_part(t, all, step.test, 0, m);
                        assert(mine.contains(m));
                        let c = choose|c: int| 0 <= c < all.len() && all[c] == m;
                        match step.axis {
                            Axis::Child => {
                                assert(t.children(n).contains(m));
                                lemma_child_at(t, root, names, n, m);
                            },
                            Axis::Parent => {
                                lemma_parent_at(t, root, names, n);
                                assert(t.parent(n) == Some(m));
                            },
                            _ => {
                                assert(m == n);
                            },
                        }
                    } else {
                        assert(rest[k - mine.len()] == m);
                        assert(rest.contains(m));
                    }
                }
            }
        }
    } else {
        assert(stepped(nodes, step, i, t, env) == Ok::<Seq<NodeId>, Seq<char>>(Seq::empty()));
    }
}

proof fn lemma_plain_walk(
    t: Tree,
    u: Tree,
    root: NodeId,
    nodes: Seq<NodeId>,
    names: Seq<Seq<char>>,
    steps: Seq<StepModel>,
    k: int,
    env: Surroundings,
)
    requires
        is_rooted(t, root),
        same_shape(t, u),
        forall|i: int| 0 <= i < steps.len() ==> is_plain_step(#[trigger] steps[i]),
        all_at(t, root, names, nodes),
        stepped_parts(names, steps, k) is Some,
        0 <= k <= steps.len(),
    ensures
        walked(nodes, steps, k, t, env) == walked(nodes, steps, k, u, env),
        walked(nodes, steps, k, t, env) matches Ok(r) ==> all_at(
            t,
            root,
            stepped_parts(names, steps, k)->0,
            r,
        ),
    decreases steps.len() - k,
{
    if k < steps.len() {
        let step = steps[k];
        assert(is_plain_step(step));
        let next = after_step(names, step)->0;
        assert(stepped_parts(names, steps, k) == stepped_parts(next, steps, k + 1));
        lemma_plain_step(t, u, root, nodes, names, step, 0, env);
        if let Ok(found) = stepped(nodes, step, 0, t, env) {
            lemma_sorted_same(t, u, found);
            law_node_sets_in_document_order(t, found);
            let s = sorted_unique(t, found);
            assert forall|m: NodeId| #[trigger] s.contains(m) implies t.has(m) && is_at(
                t,
                root,
                next,
                m,
            ) by {
                assert(found.contains(m));
            }
            lemma_plain_walk(t, u, root, s, next, steps, k + 1, env);
        }
    }
}

/// A plain path comes to the same nodes whatever they hold, and those are
/// where its names lead.
pub proof fn lemma_plain_path(
    t: Tree,
    u: Tree,
    root: NodeId,
    absolute: bool,
    steps: Seq<StepModel>,
    from: Seq<Seq<char>>,
    here: Here,
    env: Surroundings,
)
    requires
        is_rooted(t, root),
        same_shape(t, u),
        is_plain(absolute, steps, from, t.name(root)),
        t.has(here.node),
        is_at(t, root, from, here.node),
    ensures
        eval(ExprModel::Path { absolute, steps }, t, here, env) == eval(
            ExprModel::Path { absolute, steps },
            u,
            here,
            env,
        ),
        eval(
            ExprModel::Path { absolute, steps },
            t,
            here,
            env,
        ) matches Ok(v) ==> v matches ValueModel::NodeSet(nodes) && all_at(
            t,
            root,
            named(absolute, steps, from)->0,
            nodes,
        ),
{
    assert(t.has(root));
    assert(u.nodes[root.0 as int].name == t.nodes[root.0 as int].name);
    let start = if absolute {
        root
    } else {
        here.node
    };
    let names: Seq<Seq<char>> = if absolute {
        Seq::empty()
    } else {
        from
    };
    assert forall|m: NodeId| #[trigger] seq![start].contains(m) implies t.has(m) && is_at(
        t,
        root,
        names,
        m,
    ) by {}
    lemma_plain_walk(t, u, root, seq![start], names, steps, 0, env);
}

// ---------------------------------------------------------------------------
// Evaluation where what is read stays
// ---------------------------------------------------------------------------

/// Whether what an expression looks at holds the same in two documents.
pub open spec fn is_spared(
    e: ExprModel,
    from: Seq<Seq<char>>,
    t: Tree,
    u: Tree,
    root: NodeId,
) -> bool {
    forall|names: Seq<Seq<char>>, n: NodeId|
        #![trigger looks_at(e, from, names), is_at(t, root, names, n)]
        looks_at(e, from, names) && is_at(t, root, names, n) ==> holds_same(t, u, n)
}

proof fn lemma_spared_part(
    e: ExprModel,
    part: ExprModel,
    from: Seq<Seq<char>>,
    t: Tree,
    u: Tree,
    root: NodeId,
)
    requires
        is_spared(e, from, t, u, root),
        forall|names: Seq<Seq<char>>| #[trigger]
            looks_at(part, from, names) ==> looks_at(e, from, names),
    ensures
        is_spared(part, from, t, u, root),
{
    assert forall|names: Seq<Seq<char>>, n: NodeId|
        #![trigger looks_at(part, from, names), is_at(t, root, names, n)]
        looks_at(part, from, names) && is_at(t, root, names, n) implies holds_same(t, u, n) by {
        assert(looks_at(e, from, names));
    }
}

proof fn lemma_argument(
    s: Seq<ExprModel>,
    k: int,
    i: int,
    from: Seq<Seq<char>>,
    top: Seq<char>,
)
    requires
        0 <= k <= i < s.len(),
    ensures
        all_read_plainly(s, k, from, top) ==> reads_plainly(s[i], from, top),
        forall|names: Seq<Seq<char>>| #[trigger]
            looks_at(s[i], from, names) ==> any_looks_at(s, k, from, names),
    decreases i - k,
{
    if k < i {
        lemma_argument(s, k + 1, i, from, top);
    }
}

/// An expression that reads plainly comes to the same where what it looks at
/// holds the same.
proof fn lemma_eval_same(
    e: ExprModel,
    from: Seq<Seq<char>>,
    t: Tree,
    u: Tree,
    root: NodeId,
    here: Here,
    env: Surroundings,
)
    requires
        is_rooted(t, root),
        same_shape(t, u),
        t.has(here.node),
        is_at(t, root, from, here.node),
        reads_plainly(e, from, t.name(root)),
        is_spared(e, from, t, u, root),
    ensures
        eval(e, t, here, env) == eval(e, u, here, env),
        reads_same(t, u, eval(e, t, here, env)),
    decreases e,
{
    match e {
        ExprModel::Negate(inner) => {
            lemma_spared_part(e, *inner, from, t, u, root);
            lemma_eval_same(*inner, from, t, u, root, here, env);
            let r = eval(*inner, t, here, env);
            if let Ok(ValueModel::NodeSet(nodes)) = r {
                if nodes.len() > 0 {
                    assert(holds_same(t, u, nodes[0]));
                }
            }
        },
        ExprModel::Union(left, right) => {
            lemma_spared_part(e, *left, from, t, u, root);
            lemma_spared_part(e, *right, from, t, u, root);
            lemma_eval_same(*left, from, t, u, root, here, env);
            lemma_eval_same(*right, from, t, u, root, here, env);
            if let (Ok(ValueModel::NodeSet(a)), Ok(ValueModel::NodeSet(b))) = (
                eval(*left, t, here, env),
                eval(*right, t, here, env),
            ) {
                lemma_sorted_same(t, u, a + b);
                law_node_sets_in_document_order(t, a + b);
                let s = sorted_unique(t, a + b);
                assert forall|i: int| 0 <= i < s.len() implies holds_same(t, u, #[trigger] s[i]) by {
                    assert(s.contains(s[i]));
                    let k = choose|k: int| 0 <= k < (a + b).len() && (a + b)[k] == s[i];
                    if k < a.len() {
                        assert(holds_same(t, u, a[k]));
                    } else {
                        assert(holds_same(t, u, b[k - a.len()]));
                    }
                }
            }
        },
        ExprModel::Binary { op, left, right } => {
            lemma_spared_part(e, *left, from, t, u, root);
            lemma_spared_part(e, *right, from, t, u, root);
            lemma_eval_same(*left, from, t, u, root, here, env);
            lemma_eval_same(*right, from, t, u, root, here, env);
            let a = eval(*left, t, here, env);
            let b = eval(*right, t, here, env);
            if let Ok(ValueModel::NodeSet(nodes)) = a {
                if nodes.len() > 0 {
                    assert(holds_same(t, u, nodes[0]));
                }
            }
            if let Ok(ValueModel::NodeSet(nodes)) = b {
                if nodes.len() > 0 {
                    assert(holds_same(t, u, nodes[0]));
                }
            }
            if let (Ok(x), Ok(y)) = (a, b) {
                lemma_compared_same(t, u, x, y, false);
                lemma_compared_same(t, u, x, y, true);
                lemma_standing_same(t, u, op, x, y);
            }
        },
        ExprModel::Path { absolute, steps } => {
            lemma_plain_path(t, u, root, absolute, steps, from, here, env);
            if let Ok(ValueModel::NodeSet(nodes)) = eval(e, t, here, env) {
                let names = named(absolute, steps, from)->0;
                assert(looks_at(e, from, names));
                assert forall|i: int| 0 <= i < nodes.len() implies holds_same(
                    t,
                    u,
                    #[trigger] nodes[i],
                ) by {
                    assert(nodes.contains(nodes[i]));
                    assert(is_at(t, root, names, nodes[i]));
                }
            }
        },
        ExprModel::Function { name, args } => {
            lemma_call_same(name, args, from, t, u, root, here, env);
        },
        _ => {},
    }
}

proof fn lemma_call_same(
    name: Seq<char>,
    args: Seq<ExprModel>,
    from: Seq<Seq<char>>,
    t: Tree,
    u: Tree,
    root: NodeId,
    here: Here,
    env: Surroundings,
)
    requires
        is_rooted(t, root),
        same_shape(t, u),
        t.has(here.node),
        is_at(t, root, from, here.node),
        reads_plainly(ExprModel::Function { name, args }, from, t.name(root)),
        is_spared(ExprModel::Function { name, args }, from, t, u, root),
    ensures
        eval(ExprModel::Function { name, args }, t, here, env) == eval(
            ExprModel::Function { name, args },
            u,
            here,
            env,
        ),
        reads_same(t, u, eval(ExprModel::Function { name, args }, t, here, env)),
    decreases args,
{
    let e = ExprModel::Function { name, args };
    let r = results(args, t, here, env);
    if counts(name, args) {
        lemma_argument(args, 0, 0, from, t.name(root));
        if let ExprModel::Path { absolute, steps } = args[0] {
            lemma_plain_path(t, u, root, absolute, steps, from, here, env);
        }
        assert(results(args, u, here, env) =~= r);
    } else {
        assert forall|i: int| 0 <= i < args.len() implies eval(#[trigger] args[i], t, here, env)
            == eval(args[i], u, here, env) && reads_same(t, u, eval(args[i], t, here, env)) by {
            lemma_argument(args, 0, i, from, t.name(root));
            lemma_spared_part(e, args[i], from, t, u, root);
            lemma_eval_same(args[i], from, t, u, root, here, env);
        }
        assert(results(args, u, here, env) =~= r);
        assert(all_read_same(t, u, r)) by {
            assert forall|i: int| 0 <= i < r.len() implies reads_same(t, u, #[trigger] r[i]) by {
                assert(r[i] == eval(args[i], t, here, env));
            }
        }
        lemma_called_same(name, args, r, t, u, here, env);
    }
}

// ---------------------------------------------------------------------------
// Bindings
// ---------------------------------------------------------------------------

/// The names that a path is written with.
pub open spec fn path_names(path: Seq<char>) -> Seq<Seq<char>> {
    split_on(path, '/').skip(1)
}

pub open spec fn child_steps(names: Seq<Seq<char>>) -> Seq<StepModel> {
    Seq::new(names.len(), |i: int| child_step(names[i]))
}

/// Whether a path is written out from below the root, one name for each
/// step.
pub open spec fn is_written_out(path: Seq<char>, top: Seq<char>) -> bool {
    let names = path_names(path);
    &&& names.len() > 0
    &&& names[0] != top
    &&& path == "/"@ + join(names, "/"@)
    &&& parse_model(path) == Ok::<ExprModel, Seq<char>>(
        ExprModel::Path { absolute: true, steps: child_steps(names) },
    )
}

proof fn lemma_child_steps(names: Seq<Seq<char>>, k: int)
    requires
        0 <= k <= names.len(),
    ensures
        stepped_parts(names.take(k), child_steps(names), k) == Some(names),
    decreases names.len() - k,
{
    if k < names.len() {
        assert(names.take(k).push(names[k]) == names.take(k + 1));
        assert(child_steps(names)[k] == child_step(names[k]));
        lemma_child_steps(names, k + 1);
    } else {
        assert(names.take(k) == names);
    }
}

pub proof fn lemma_present_part(t: Tree, s: Seq<NodeId>, n: NodeId)
    ensures
        present(t, s).contains(n) ==> s.contains(n) && t.has(n),
    decreases s.len(),
{
    if s.len() > 0 && present(t, s).contains(n) {
        let d = s.drop_last();
        let r = present(t, s);
        let k = choose|k: int| 0 <= k < r.len() && r[k] == n;
        lemma_present_part(t, d, n);
        if t.has(s.last()) && k == r.len() - 1 {
            assert(s[s.len() - 1] == n);
        } else {
            assert(present(t, d)[k] == n);
            let i = choose|i: int| 0 <= i < d.len() && d[i] == n;
            assert(s[i] == n);
        }
    }
}

proof fn lemma_present_same(t: Tree, u: Tree, s: Seq<NodeId>)
    requires
        t.nodes.len() == u.nodes.len(),
    ensures
        present(t, s) == present(u, s),
    decreases s.len(),
{
    if s.len() > 0 {
        lemma_present_same(t, u, s.drop_last());
    }
}

/// The nodes of a path that is written out are where its names lead,
/// whatever the document holds.
pub proof fn lemma_bound(t: Tree, u: Tree, root: NodeId, path: Seq<char>, env: Surroundings)
    requires
        is_rooted(t, root),
        same_shape(t, u),
        is_written_out(path, t.name(root)),
    ensures
        nodes_for(path, t, env) == nodes_for(path, u, env),
        all_at(t, root, path_names(path), nodes_for(path, t, env)),
{
    let names = path_names(path);
    let steps = child_steps(names);
    lemma_child_steps(names, 0);
    assert(names.take(0) == Seq::<Seq<char>>::empty());
    assert(t.has(root));
    assert(steps[0] == child_step(names[0]));
    assert forall|i: int| 0 <= i < steps.len() implies is_plain_step(#[trigger] steps[i]) by {
        assert(steps[i] == child_step(names[i]));
    }
    lemma_plain_path(t, u, root, true, steps, Seq::empty(), at(root), env);
    if let Ok(ValueModel::NodeSet(nodes)) = eval(
        ExprModel::Path { absolute: true, steps },
        t,
        at(root),
        env,
    ) {
        lemma_present_same(t, u, nodes);
        let r = present(t, nodes);
        assert forall|m: NodeId| #[trigger] r.contains(m) implies t.has(m) && is_at(
            t,
            root,
            names,
            m,
        ) by {
            lemma_present_part(t, nodes, m);
            assert(nodes.contains(m));
        }
    }
}

/// What an expression looks at is among the paths it reads.
proof fn lemma_looks_and_reads(e: ExprModel, path: Seq<char>, names: Seq<Seq<char>>)
    requires
        looks_at(e, path_names(path), names),
    ensures
        read_by(e, path).contains("/"@ + join(names, "/"@)),
    decreases e, 0nat,
{
    let text = "/"@ + join(names, "/"@);
    match e {
        ExprModel::Negate(inner) => lemma_looks_and_reads(*inner, path, names),
        ExprModel::Union(left, right) => {
            if looks_at(*left, path_names(path), names) {
                lemma_looks_and_reads(*left, path, names);
            } else {
                lemma_looks_and_reads(*right, path, names);
            }
            lemma_either(read_by(*left, path), read_by(*right, path), text);
        },
        ExprModel::Binary { op, left, right } => {
            if looks_at(*left, path_names(path), names) {
                lemma_looks_and_reads(*left, path, names);
            } else {
                lemma_looks_and_reads(*right, path, names);
            }
            lemma_either(read_by(*left, path), read_by(*right, path), text);
        },
        ExprModel::Path { absolute, steps } => {
            assert(path_text(absolute, steps, path) == Some(text));
            assert(seq![text][0] == text);
            lemma_either(seq![text], read_by_steps(steps, 0, path), text);
        },
        ExprModel::Function { name, args } => lemma_any_reads(args, 0, path, names),
        _ => {},
    }
}

proof fn lemma_any_reads(s: Seq<ExprModel>, k: int, path: Seq<char>, names: Seq<Seq<char>>)
    requires
        any_looks_at(s, k, path_names(path), names),
    ensures
        read_by_all(s, k, path).contains("/"@ + join(names, "/"@)),
    decreases s, s.len() - k,
{
    if looks_at(s[k], path_names(path), names) {
        lemma_looks_and_reads(s[k], path, names);
    } else {
        lemma_any_reads(s, k + 1, path, names);
    }
    lemma_either(read_by(s[k], path), read_by_all(s, k + 1, path), "/"@ + join(names, "/"@));
}

proof fn lemma_either(a: Seq<Seq<char>>, b: Seq<Seq<char>>, x: Seq<char>)
    ensures
        a.contains(x) || b.contains(x) ==> (a + b).contains(x),
{
    if a.contains(x) {
        let k = choose|k: int| 0 <= k < a.len() && a[k] == x;
        assert((a + b)[k] == x);
    } else if b.contains(x) {
        let k = choose|k: int| 0 <= k < b.len() && b[k] == x;
        assert((a + b)[a.len() + k] == x);
    }
}

// ---------------------------------------------------------------------------
// Settling
// ---------------------------------------------------------------------------

/// Whether a calculated node holds what its calculation comes to.
pub open spec fn is_settled(b: BindingModel, n: NodeId, t: Tree, env: Surroundings) -> bool {
    b.calculate matches Some(e) ==> match text_result(eval(e, t, at(n), env), t) {
        Ok(text) => t.value(n) == text,
        Err(_) => true,
    }
}

/// Whether a calculation looks at nothing that another one changes, neither
/// at it nor at anything it stands in.
spec fn is_deaf_to(b: BindingModel, other: BindingModel) -> bool {
    b.calculate matches Some(e) ==> forall|names: Seq<Seq<char>>| #[trigger]
        looks_at(e, path_names(b.path), names) ==> !extends(path_names(other.path), names)
}

/// Whether a binding calculates from plain paths.
pub open spec fn is_plain_calculation(b: BindingModel, top: Seq<char>) -> bool {
    b.calculate matches Some(e) ==> is_written_out(b.path, top) && reads_plainly(
        e,
        path_names(b.path),
        top,
    )
}

proof fn lemma_spared_by_write(
    b: BindingModel,
    other: BindingModel,
    t: Tree,
    root: NodeId,
    m: NodeId,
    value: Seq<char>,
)
    requires
        is_rooted(t, root),
        b.calculate is Some,
        is_deaf_to(b, other),
        t.has(m),
        is_at(t, root, path_names(other.path), m),
    ensures
        is_spared(b.calculate->0, path_names(b.path), t, t.with_value(m, value), root),
{
    let e = b.calculate->0;
    let u = t.with_value(m, value);
    let theirs = path_names(other.path);
    assert forall|names: Seq<Seq<char>>, n: NodeId|
        #![trigger looks_at(e, path_names(b.path), names), is_at(t, root, names, n)]
        looks_at(e, path_names(b.path), names) && is_at(t, root, names, n) implies holds_same(
        t,
        u,
        n,
    ) by {
        assert(!extends(theirs, names));
        if n == m {
            lemma_one_place(t, root, names, theirs, m);
            assert(theirs.take(theirs.len() as int) == theirs);
        }
        if t.has(n) {
            if t.descendants(n).contains(m) {
                lemma_descendant_past(t, root, names, n, m);
                let more = choose|more: Seq<Seq<char>>|
                    extends(more, names) && #[trigger] is_at(t, root, more, m);
                lemma_one_place(t, root, more, theirs, m);
            }
            lemma_value_elsewhere(t, m, value, n);
        }
    }
}

/// Whether what a calculation comes to stays the same when a value that
/// another one calculates changes, in documents of one shape.
pub open spec fn is_unmoved_by(
    b: BindingModel,
    other: BindingModel,
    t: Tree,
    root: NodeId,
    env: Surroundings,
) -> bool {
    b.calculate matches Some(e) ==> forall|u: Tree, n: NodeId, m: NodeId, value: Seq<char>|
        #![trigger eval(e, u.with_value(m, value), at(n), env)]
        same_shape(t, u) && is_rooted(u, root) && u.has(n) && is_at(
            u,
            root,
            path_names(b.path),
            n,
        ) && u.has(m) && is_at(u, root, path_names(other.path), m) ==> text_result(
            eval(e, u.with_value(m, value), at(n), env),
            u.with_value(m, value),
        ) == text_result(eval(e, u, at(n), env), u)
}

/// Whether a node is reached from the root by some names.
pub open spec fn is_reached(t: Tree, root: NodeId, n: NodeId) -> bool {
    exists|names: Seq<Seq<char>>| is_at(t, root, names, n)
}

/// Whether a document is another one but for what elements below the root
/// hold.
pub open spec fn is_answered(t: Tree, u: Tree, root: NodeId) -> bool {
    &&& same_shape(t, u)
    &&& forall|n: NodeId|
        #![trigger t.value(n)]
        #![trigger u.value(n)]
        t.has(n) && u.value(n) != t.value(n) ==> is_reached(t, root, n)
}

/// Whether what a calculation comes to stays the same when a value that
/// another one calculates changes, in a document and in all that come of it
/// where elements are answered.
pub open spec fn is_kept_by(
    b: BindingModel,
    other: BindingModel,
    t: Tree,
    root: NodeId,
    env: Surroundings,
) -> bool {
    b.calculate matches Some(e) ==> forall|u: Tree, n: NodeId, m: NodeId, value: Seq<char>|
        #![trigger eval(e, u.with_value(m, value), at(n), env)]
        is_answered(t, u, root) && is_rooted(u, root) && u.has(n) && is_at(
            u,
            root,
            path_names(b.path),
            n,
        ) && u.has(m) && is_at(u, root, path_names(other.path), m) ==> text_result(
            eval(e, u.with_value(m, value), at(n), env),
            u.with_value(m, value),
        ) == text_result(eval(e, u, at(n), env), u)
}

/// What moves a calculation in no document of a shape does not move it in
/// those that come of one.
pub proof fn lemma_unmoved_is_kept(
    b: BindingModel,
    other: BindingModel,
    t: Tree,
    root: NodeId,
    env: Surroundings,
)
    requires
        is_unmoved_by(b, other, t, root, env),
    ensures
        is_kept_by(b, other, t, root, env),
{
}

/// A document stays what it is where a value changes.
pub proof fn lemma_written(t: Tree, root: NodeId, m: NodeId, value: Seq<char>)
    requires
        is_rooted(t, root),
        t.has(m),
    ensures
        is_rooted(t.with_value(m, value), root),
        same_shape(t, t.with_value(m, value)),
        t.with_value(m, value).name(root) == t.name(root),
{
    t.lemma_with_value_wf(m, value);
    t.lemma_with_value_upright(m, value);
}

/// What a calculation comes to does not change where a value does that it is
/// deaf to.
proof fn lemma_unmoved(
    b: BindingModel,
    n: NodeId,
    other: BindingModel,
    m: NodeId,
    value: Seq<char>,
    t: Tree,
    root: NodeId,
    env: Surroundings,
)
    requires
        is_rooted(t, root),
        b.calculate is Some,
        is_plain_calculation(b, t.name(root)),
        is_deaf_to(b, other),
        t.has(n),
        is_at(t, root, path_names(b.path), n),
        t.has(m),
        is_at(t, root, path_names(other.path), m),
    ensures
        text_result(eval(b.calculate->0, t, at(n), env), t) == text_result(
            eval(b.calculate->0, t.with_value(m, value), at(n), env),
            t.with_value(m, value),
        ),
{
    let e = b.calculate->0;
    let u = t.with_value(m, value);
    lemma_written(t, root, m, value);
    lemma_spared_by_write(b, other, t, root, m, value);
    lemma_eval_same(e, path_names(b.path), t, u, root, at(n), env);
    if let Ok(ValueModel::NodeSet(nodes)) = eval(e, t, at(n), env) {
        if nodes.len() > 0 {
            assert(holds_same(t, u, nodes[0]));
        }
    }
}

/// Work on a document leaves it the same but for values.
spec fn is_work_on(w: Working, t: Tree, root: NodeId) -> bool {
    &&& is_rooted(t, root)
    &&& is_rooted(w.tree, root)
    &&& is_answered(t, w.tree, root)
    &&& w.tree.name(root) == t.name(root)
}

proof fn lemma_work_at(
    w: Working,
    t: Tree,
    root: NodeId,
    b: BindingModel,
    m: NodeId,
    env: Surroundings,
)
    requires
        is_work_on(w, t, root),
        t.has(m),
        is_reached(t, root, m),
    ensures
        is_work_on(w.calculated_at(b, m, env), t, root),
        w.calculated_at(b, m, env).tree == w.tree || exists|value: Seq<char>|
            w.calculated_at(b, m, env).tree == #[trigger] w.tree.with_value(m, value),
{
    if let Some(e) = b.calculate {
        if let Ok(text) = text_result(eval(e, w.tree, at(m), env), w.tree) {
            lemma_written(w.tree, root, m, text);
            let u = w.tree.with_value(m, text);
            assert forall|i: int| 0 <= i < t.nodes.len() implies (#[trigger] u.nodes[i]) == (
            crate::tree::NodeModel { value: u.nodes[i].value, ..t.nodes[i] }) by {
                assert(w.tree.nodes[i] == (crate::tree::NodeModel {
                    value: w.tree.nodes[i].value,
                    ..t.nodes[i]
                }));
            }
            assert forall|n: NodeId| t.has(n) && #[trigger] u.value(n) != t.value(
                n,
            ) implies is_reached(t, root, n) by {
                if n != m {
                    assert(u.nodes[n.0 as int] == w.tree.nodes[n.0 as int]);
                    assert(w.tree.value(n) != t.value(n));
                }
            }
        }
    }
}

/// A calculation is settled once it has been run.
proof fn lemma_settles(
    w: Working,
    t: Tree,
    root: NodeId,
    b: BindingModel,
    n: NodeId,
    env: Surroundings,
)
    requires
        is_work_on(w, t, root),
        is_kept_by(b, b, t, root, env),
        t.has(n),
        is_at(w.tree, root, path_names(b.path), n),
    ensures
        is_settled(b, n, w.calculated_at(b, n, env).tree, env),
{
    if let Some(e) = b.calculate {
        if let Ok(text) = text_result(eval(e, w.tree, at(n), env), w.tree) {
            assert(text_result(
                eval(e, w.tree.with_value(n, text), at(n), env),
                w.tree.with_value(n, text),
            ) == text_result(eval(e, w.tree, at(n), env), w.tree));
        }
    }
}

/// What is settled stays so where another node is calculated that does not
/// move it.
proof fn lemma_stays_settled(
    w: Working,
    t: Tree,
    root: NodeId,
    b: BindingModel,
    n: NodeId,
    other: BindingModel,
    m: NodeId,
    env: Surroundings,
)
    requires
        is_work_on(w, t, root),
        is_kept_by(b, other, t, root, env),
        is_settled(b, n, w.tree, env),
        n != m,
        t.has(n),
        is_at(w.tree, root, path_names(b.path), n),
        t.has(m),
        is_reached(t, root, m),
        is_at(w.tree, root, path_names(other.path), m),
    ensures
        is_settled(b, n, w.calculated_at(other, m, env).tree, env),
{
    lemma_work_at(w, t, root, other, m, env);
    let after = w.calculated_at(other, m, env).tree;
    if after != w.tree && b.calculate is Some {
        let value = choose|value: Seq<char>| after == #[trigger] w.tree.with_value(m, value);
        let e = b.calculate->0;
        assert(text_result(eval(e, after, at(n), env), after) == text_result(
            eval(e, w.tree, at(n), env),
            w.tree,
        ));
    }
}

/// Whether the nodes of a list from `j` on are reached by some names.
spec fn rest_at(t: Tree, root: NodeId, names: Seq<Seq<char>>, nodes: Seq<NodeId>, j: int) -> bool {
    forall|k: int|
        j <= k < nodes.len() ==> t.has(#[trigger] nodes[k]) && is_at(t, root, names, nodes[k])
}

pub proof fn lemma_place_kept(t: Tree, u: Tree, root: NodeId, names: Seq<Seq<char>>, j: int, n: NodeId)
    requires
        same_shape(t, u),
        t.has(n),
    ensures
        crate::tree::places::reached(t, root, names, j, n) == crate::tree::places::reached(
            u,
            root,
            names,
            j,
            n,
        ),
    decreases j,
{
    if j > 0 {
        assert(u.nodes[n.0 as int].name == t.nodes[n.0 as int].name);
        assert(u.nodes[n.0 as int].parent == t.nodes[n.0 as int].parent);
        if let Some(p) = t.parent(n) {
            if t.has(p) {
                assert(u.nodes[p.0 as int].children == t.nodes[p.0 as int].children);
                lemma_place_kept(t, u, root, names, j - 1, p);
            }
        }
    }
}

/// All nodes of a calculation are settled once it has been run at each.
proof fn lemma_own_nodes(
    w: Working,
    t: Tree,
    root: NodeId,
    b: BindingModel,
    nodes: Seq<NodeId>,
    j: int,
    n: NodeId,
    env: Surroundings,
)
    requires
        is_work_on(w, t, root),
        is_kept_by(b, b, t, root, env),
        0 <= j <= nodes.len(),
        rest_at(t, root, path_names(b.path), nodes, j),
        t.has(n),
        is_at(t, root, path_names(b.path), n),
        is_settled(b, n, w.tree, env) || exists|k: int|
            j <= k < nodes.len() && #[trigger] nodes[k] == n,
    ensures
        is_work_on(w.calculated_nodes(b, nodes, j, env), t, root),
        is_settled(b, n, w.calculated_nodes(b, nodes, j, env).tree, env),
    decreases nodes.len() - j,
{
    if j < nodes.len() {
        let m = nodes[j];
        let names = path_names(b.path);
        lemma_place_kept(t, w.tree, root, names, names.len() as int, m);
        lemma_place_kept(t, w.tree, root, names, names.len() as int, n);
        lemma_work_at(w, t, root, b, m, env);
        let next = w.calculated_at(b, m, env);
        if m == n {
            lemma_settles(w, t, root, b, n, env);
        } else if is_settled(b, n, w.tree, env) {
            lemma_stays_settled(w, t, root, b, n, b, m, env);
        }
        lemma_own_nodes(next, t, root, b, nodes, j + 1, n, env);
    }
}

/// What is settled stays so while another calculation is run.
proof fn lemma_other_nodes(
    w: Working,
    t: Tree,
    root: NodeId,
    b: BindingModel,
    n: NodeId,
    other: BindingModel,
    nodes: Seq<NodeId>,
    j: int,
    env: Surroundings,
)
    requires
        is_work_on(w, t, root),
        is_kept_by(b, other, t, root, env),
        path_names(b.path) != path_names(other.path),
        0 <= j <= nodes.len(),
        rest_at(t, root, path_names(other.path), nodes, j),
        t.has(n),
        is_at(t, root, path_names(b.path), n),
        is_settled(b, n, w.tree, env),
    ensures
        is_work_on(w.calculated_nodes(other, nodes, j, env), t, root),
        is_settled(b, n, w.calculated_nodes(other, nodes, j, env).tree, env),
    decreases nodes.len() - j,
{
    if j < nodes.len() {
        let m = nodes[j];
        let names = path_names(b.path);
        let theirs = path_names(other.path);
        if m == n {
            lemma_one_place(t, root, names, theirs, m);
        }
        lemma_place_kept(t, w.tree, root, theirs, theirs.len() as int, m);
        lemma_place_kept(t, w.tree, root, names, names.len() as int, n);
        lemma_work_at(w, t, root, other, m, env);
        lemma_stays_settled(w, t, root, b, n, other, m, env);
        lemma_other_nodes(
            w.calculated_at(other, m, env),
            t,
            root,
            b,
            n,
            other,
            nodes,
            j + 1,
            env,
        );
    }
}

/// Running a calculation leaves the document the same but for values.
proof fn lemma_work_nodes(
    w: Working,
    t: Tree,
    root: NodeId,
    b: BindingModel,
    nodes: Seq<NodeId>,
    j: int,
    env: Surroundings,
)
    requires
        is_work_on(w, t, root),
        0 <= j <= nodes.len(),
        rest_at(t, root, path_names(b.path), nodes, j),
    ensures
        is_work_on(w.calculated_nodes(b, nodes, j, env), t, root),
    decreases nodes.len() - j,
{
    if j < nodes.len() {
        assert(t.has(nodes[j]));
        lemma_work_at(w, t, root, b, nodes[j], env);
        lemma_work_nodes(w.calculated_at(b, nodes[j], env), t, root, b, nodes, j + 1, env);
    }
}

/// A binding without a calculation leaves everything as it is.
pub proof fn lemma_idle(
    w: Working,
    b: BindingModel,
    nodes: Seq<NodeId>,
    j: int,
    env: Surroundings,
)
    requires
        b.calculate is None,
    ensures
        w.calculated_nodes(b, nodes, j, env) == w,
    decreases nodes.len() - j,
{
    if 0 <= j < nodes.len() {
        lemma_idle(w, b, nodes, j + 1, env);
    }
}

/// What is settled stays so while the calculations of an order from `k` on
/// are run.
proof fn lemma_rest(
    w: Working,
    t: Tree,
    root: NodeId,
    bindings: Seq<BindingModel>,
    order: Seq<int>,
    k: int,
    i: int,
    n: NodeId,
    env: Surroundings,
)
    requires
        is_work_on(w, t, root),
        0 <= k <= order.len(),
        0 <= i < bindings.len(),
        t.has(n),
        is_at(t, root, path_names(bindings[i].path), n),
        is_settled(bindings[i], n, w.tree, env),
        forall|a: int|
            k <= a < order.len() && bindings[#[trigger] order[a]].calculate is Some ==> {
                let other = bindings[order[a]];
                &&& is_written_out(other.path, t.name(root))
                &&& path_names(other.path) != path_names(bindings[i].path)
                &&& is_kept_by(bindings[i], other, t, root, env)
            },
    ensures
        is_work_on(w.calculated(bindings, order, k, env), t, root),
        is_settled(bindings[i], n, w.calculated(bindings, order, k, env).tree, env),
    decreases order.len() - k,
{
    if k < order.len() {
        let other = bindings[order[k]];
        let nodes = nodes_for(other.path, w.tree, env);
        if other.calculate is None {
            lemma_idle(w, other, nodes, 0, env);
        } else {
            lemma_bound(t, w.tree, root, other.path, env);
            assert forall|c: int| 0 <= c < nodes.len() implies t.has(#[trigger] nodes[c]) && is_at(
                t,
                root,
                path_names(other.path),
                nodes[c],
            ) by {
                assert(nodes.contains(nodes[c]));
            }
            lemma_other_nodes(w, t, root, bindings[i], n, other, nodes, 0, env);
        }
        lemma_rest(
            w.calculated_nodes(other, nodes, 0, env),
            t,
            root,
            bindings,
            order,
            k + 1,
            i,
            n,
            env,
        );
    }
}

/// A calculation is settled once an order that has it has been run, where
/// nothing that comes after it moves it.
proof fn lemma_run(
    w: Working,
    t: Tree,
    root: NodeId,
    bindings: Seq<BindingModel>,
    order: Seq<int>,
    k: int,
    a: int,
    n: NodeId,
    env: Surroundings,
)
    requires
        is_work_on(w, t, root),
        0 <= k <= a < order.len(),
        0 <= order[a] < bindings.len(),
        nodes_for(bindings[order[a]].path, t, env).contains(n),
        is_kept_by(bindings[order[a]], bindings[order[a]], t, root, env),
        bindings[order[a]].calculate is Some,
        forall|c: int|
            0 <= c < order.len() && bindings[#[trigger] order[c]].calculate is Some
                ==> is_written_out(bindings[order[c]].path, t.name(root)),
        forall|c: int|
            a < c < order.len() && bindings[#[trigger] order[c]].calculate is Some ==> {
                let other = bindings[order[c]];
                &&& path_names(other.path) != path_names(bindings[order[a]].path)
                &&& is_kept_by(bindings[order[a]], other, t, root, env)
            },
    ensures
        is_work_on(w.calculated(bindings, order, k, env), t, root),
        is_settled(bindings[order[a]], n, w.calculated(bindings, order, k, env).tree, env),
    decreases a - k,
{
    let b = bindings[order[k]];
    let nodes = nodes_for(b.path, w.tree, env);
    if b.calculate is None {
        lemma_idle(w, b, nodes, 0, env);
        lemma_run(w, t, root, bindings, order, k + 1, a, n, env);
    } else {
        lemma_bound(t, w.tree, root, b.path, env);
        assert forall|c: int| 0 <= c < nodes.len() implies t.has(#[trigger] nodes[c]) && is_at(
            t,
            root,
            path_names(b.path),
            nodes[c],
        ) by {
            assert(nodes.contains(nodes[c]));
        }
        let next = w.calculated_nodes(b, nodes, 0, env);
        if k == a {
            let c = choose|c: int| 0 <= c < nodes.len() && nodes[c] == n;
            assert(nodes[c] == n);
            lemma_own_nodes(w, t, root, b, nodes, 0, n, env);
            lemma_rest(next, t, root, bindings, order, k + 1, order[a], n, env);
        } else {
            lemma_work_nodes(w, t, root, b, nodes, 0, env);
            lemma_run(next, t, root, bindings, order, k + 1, a, n, env);
        }
    }
}

/// Whether what is calculated is written out, and nothing else is bound to
/// it.
pub open spec fn is_bound_once(bindings: Seq<BindingModel>, i: int, top: Seq<char>) -> bool {
    &&& is_written_out(bindings[i].path, top)
    &&& forall|j: int|
        0 <= j < bindings.len() && j != i ==> (#[trigger] bindings[j]).path != bindings[i].path
}

/// Calculations settle in a single pass: once they have been run in order,
/// every calculated node holds what its calculation comes to in the document
/// as it is then, or its calculation fails.
///
/// A calculation has to read what moves it by a path that leads to it. One
/// that reads another by a wildcard, or reads a group for what stands in it,
/// may run before that other one; and one that reads itself never settles.
pub proof fn law_calculations_settle(
    bindings: Seq<BindingModel>,
    w: Working,
    root: NodeId,
    i: int,
    n: NodeId,
    env: Surroundings,
)
    requires
        ordering(bindings) is Ok,
        is_rooted(w.tree, root),
        forall|j: int|
            0 <= j < bindings.len() && (#[trigger] bindings[j]).calculate is Some
                ==> is_bound_once(bindings, j, w.tree.name(root)),
        0 <= i < bindings.len(),
        bindings[i].calculate is Some,
        forall|j: int|
            #![trigger depends(bindings, i, j)]
            0 <= j < bindings.len() && bindings[j].calculate is Some && !depends(bindings, i, j)
                ==> is_kept_by(bindings[i], bindings[j], w.tree, root, env),
        nodes_for(bindings[i].path, w.tree, env).contains(n),
    ensures
        is_rooted(w.calculated(bindings, ordering(bindings)->Ok_0, 0, env).tree, root),
        same_shape(w.tree, w.calculated(bindings, ordering(bindings)->Ok_0, 0, env).tree),
        is_settled(
            bindings[i],
            n,
            w.calculated(bindings, ordering(bindings)->Ok_0, 0, env).tree,
            env,
        ),
{
    let t = w.tree;
    let order = ordering(bindings)->Ok_0;
    law_order_respects_dependencies(bindings);
    assert(order.contains(i));
    let a = choose|a: int| 0 <= a < order.len() && order[a] == i;
    assert(!depends(bindings, i, i));
    assert forall|c: int|
        0 <= c < order.len() && bindings[#[trigger] order[c]].calculate is Some implies is_written_out(
        bindings[order[c]].path,
        t.name(root),
    ) by {
        assert(is_bound_once(bindings, order[c], t.name(root)));
    }
    assert forall|c: int|
        a < c < order.len() && bindings[#[trigger] order[c]].calculate is Some implies ({
        let other = bindings[order[c]];
        &&& path_names(other.path) != path_names(bindings[i].path)
        &&& is_kept_by(bindings[i], other, t, root, env)
    }) by {
        let j = order[c];
        assert(order[a] != order[c]);
        assert(is_bound_once(bindings, i, t.name(root)));
        assert(is_bound_once(bindings, j, t.name(root)));
        if depends(bindings, order[a], j) {
            let before = order.take(a);
            let d = choose|d: int| 0 <= d < before.len() && before[d] == j;
            assert(order[d] == order[c]);
        }
    }
    assert forall|x: int| 0 <= x < t.nodes.len() implies (#[trigger] t.nodes[x]) == (
    crate::tree::NodeModel { value: t.nodes[x].value, ..t.nodes[x] }) by {}
    lemma_run(w, t, root, bindings, order, 0, a, n, env);
}

pub proof fn lemma_last_bound(bindings: Seq<BindingModel>, j: int, k: int)
    requires
        0 <= j < k <= bindings.len(),
        forall|i: int|
            0 <= i < bindings.len() && i != j ==> (#[trigger] bindings[i]).path
                != bindings[j].path,
    ensures
        last_bound(bindings, bindings[j].path, k) == Some(j),
    decreases k,
{
    if k - 1 != j {
        assert(bindings[k - 1].path != bindings[j].path);
        lemma_last_bound(bindings, j, k - 1);
    }
}

/// Whether what a calculation looks at, at a question that is calculated or
/// at anything that question stands in, is that question and another one.
pub open spec fn looks_at_questions(bindings: Seq<BindingModel>, i: int) -> bool {
    forall|j: int, names: Seq<Seq<char>>|
        #![trigger looks_at(bindings[i].calculate->0, path_names(bindings[i].path), names), bindings[j]]
        0 <= j < bindings.len() && bindings[j].calculate is Some && looks_at(
            bindings[i].calculate->0,
            path_names(bindings[i].path),
            names,
        ) && extends(path_names(bindings[j].path), names) ==> j != i && names == path_names(
            bindings[j].path,
        )
}

/// A calculation over plain paths, each to a question, is moved only by what
/// it depends on.
pub proof fn law_plain_calculations_follow_their_paths(
    bindings: Seq<BindingModel>,
    t: Tree,
    root: NodeId,
    i: int,
    j: int,
    env: Surroundings,
)
    requires
        is_rooted(t, root),
        0 <= i < bindings.len(),
        bindings[i].calculate is Some,
        is_plain_calculation(bindings[i], t.name(root)),
        looks_at_questions(bindings, i),
        0 <= j < bindings.len(),
        bindings[j].calculate is Some,
        is_bound_once(bindings, j, t.name(root)),
        !depends(bindings, i, j),
    ensures
        is_unmoved_by(bindings[i], bindings[j], t, root, env),
        is_kept_by(bindings[i], bindings[j], t, root, env),
{
    let b = bindings[i];
    let other = bindings[j];
    let e = b.calculate->0;
    let theirs = path_names(other.path);
    assert(is_deaf_to(b, other)) by {
        assert forall|names: Seq<Seq<char>>| #[trigger]
            looks_at(e, path_names(b.path), names) implies !extends(theirs, names) by {
            if extends(theirs, names) {
                assert(bindings[j] == other);
                assert(j != i && names == theirs);
                lemma_looks_and_reads(e, b.path, names);
                let r = read_by(e, b.path);
                let k = choose|k: int| 0 <= k < r.len() && r[k] == other.path;
                assert(read_by(e, bindings[i].path)[k] == other.path);
                lemma_last_bound(bindings, j, bindings.len() as int);
                assert(depends(bindings, i, j));
            }
        }
    }
    assert forall|u: Tree, n: NodeId, m: NodeId, value: Seq<char>|
        #![trigger eval(e, u.with_value(m, value), at(n), env)]
        same_shape(t, u) && is_rooted(u, root) && u.has(n) && is_at(
            u,
            root,
            path_names(b.path),
            n,
        ) && u.has(m) && is_at(u, root, theirs, m) implies text_result(
        eval(e, u.with_value(m, value), at(n), env),
        u.with_value(m, value),
    ) == text_result(eval(e, u, at(n), env), u) by {
        assert(t.has(root));
        assert(u.nodes[root.0 as int].name == t.nodes[root.0 as int].name);
        lemma_unmoved(b, n, other, m, value, u, root, env);
    }
    lemma_unmoved_is_kept(b, other, t, root, env);
}

// ---------------------------------------------------------------------------
// Forms
// ---------------------------------------------------------------------------

/// How many nodes a document takes in a model.
pub open spec fn document_size(t: Tree) -> nat {
    match t.root {
        Some(root) => t.size(root),
        None => 0,
    }
}

pub open spec fn tables_size(tables: Seq<(Seq<char>, Tree)>, i: int) -> nat
    decreases tables.len() - i,
{
    if i < 0 || i >= tables.len() {
        0
    } else {
        document_size(tables[i].1) + tables_size(tables, i + 1)
    }
}

/// How many nodes the model of a submission has.
pub open spec fn model_size(form: FormModel, t: Tree) -> nat {
    1 + document_size(t) + tables_size(form.tables, 0)
}

/// Whether a model is under way: a document that hangs on its first node.
pub open spec fn is_model(t: Tree) -> bool {
    &&& t.wf()
    &&& t.upright()
    &&& t.nodes.len() > 0
    &&& t.root == Some(NodeId(0))
    &&& t.parent(NodeId(0)) is None
    &&& t.name(NodeId(0)) == MODEL_ROOT@
}

pub proof fn lemma_with_document(t: Tree, source: Tree)
    requires
        is_model(t),
        source.wf(),
        t.nodes.len() + document_size(source) <= usize::MAX,
    ensures
        is_model(with_document(t, source)),
        with_document(t, source).nodes.len() == t.nodes.len() + document_size(source),
{
    if let Some(root) = source.root {
        let id = NodeId(t.nodes.len() as usize);
        let u = t.adopted(source, root);
        t.lemma_adopted_linked(source, root);
        t.lemma_adopted(t, source, root);
        u.lemma_split_can_hold(t.nodes.len() as int, NodeId(0), id);
        u.lemma_split_unlinked(t.nodes.len() as int);
        u.lemma_appended_wf(NodeId(0), id);
        u.lemma_appended_upright(NodeId(0), id);
        assert(u.nodes[0] == t.nodes[0]);
    }
}

pub proof fn lemma_with_tables(t: Tree, tables: Seq<(Seq<char>, Tree)>, i: int)
    requires
        is_model(t),
        tables_wf(tables),
        0 <= i,
        t.nodes.len() + tables_size(tables, i) <= usize::MAX,
    ensures
        is_model(with_tables(t, tables, i)),
    decreases tables.len() - i,
{
    if i < tables.len() {
        assert(tables[i].1.wf());
        lemma_with_document(t, tables[i].1);
        lemma_with_tables(with_document(t, tables[i].1), tables, i + 1);
    }
}

/// A model begins with its root.
pub proof fn lemma_first_element()
    ensures
        is_model(lone_element(MODEL_ROOT@)),
        lone_element(MODEL_ROOT@).nodes.len() == 1,
        lone_element(MODEL_ROOT@).children(NodeId(0)).len() == 0,
{
    let e = Tree::empty();
    assert(e.wf()) by {
        assert(e.ranked(Ranking { of: Seq::empty(), bound: 0 }));
    }
    e.lemma_grown_wf(NodeKind::Element, MODEL_ROOT@, ""@);
    e.lemma_grown_upright(NodeKind::Element, MODEL_ROOT@, ""@);
    let one = e.grown(bare_node(NodeKind::Element, MODEL_ROOT@, ""@));
    let rooted = Tree { root: Some(NodeId(0)), ..one };
    let first = lone_element(MODEL_ROOT@);
    one.lemma_rerooted_wf(Some(NodeId(0)), first.order);
    assert(first == Tree { root: Some(NodeId(0)), order: first.order, ..one });
    one.lemma_same_nodes_upright(first);
}

/// A model can be walked from its root both ways.
pub proof fn lemma_model_rooted(form: FormModel, t: Tree)
    requires
        form.wf(),
        t.wf(),
        model_size(form, t) <= usize::MAX,
    ensures
        is_rooted(model_of(form, t), NodeId(0)),
        model_of(form, t).name(NodeId(0)) == MODEL_ROOT@,
{
    lemma_first_element();
    let first = lone_element(MODEL_ROOT@);
    lemma_with_document(first, t);
    let second = with_document(first, t);
    lemma_with_tables(second, form.tables, 0);
    let third = with_tables(second, form.tables, 0);
    let last = third.reindexed();
    third.lemma_rerooted_wf(third.root, last.order);
    assert(last == Tree { root: third.root, order: last.order, ..third });
    third.lemma_same_nodes_upright(last);
}

/// The calculations of a form settle in a single pass over the answers: each
/// calculated node then holds what its calculation comes to, or its
/// calculation fails, and a check has no disagreement to report there.
///
/// This is so for a calculation that is moved by nothing but what it depends
/// on, by the paths it reads, as all those are that read plain paths to
/// questions.
pub proof fn law_form_calculations_settle(
    form: FormModel,
    t: Tree,
    today: Seq<char>,
    now: Seq<char>,
    i: int,
    n: NodeId,
)
    requires
        form.wf(),
        ordering(form.rules.bindings) == Ok::<Seq<int>, Seq<char>>(form.rules.order),
        t.wf(),
        model_size(form, t) <= usize::MAX,
        forall|j: int|
            0 <= j < form.rules.bindings.len() && (
            #[trigger] form.rules.bindings[j]).calculate is Some ==> is_bound_once(
                form.rules.bindings,
                j,
                MODEL_ROOT@,
            ),
        0 <= i < form.rules.bindings.len(),
        form.rules.bindings[i].calculate is Some,
        forall|j: int|
            #![trigger depends(form.rules.bindings, i, j)]
            0 <= j < form.rules.bindings.len() && form.rules.bindings[j].calculate is Some
                && !depends(form.rules.bindings, i, j) ==> is_kept_by(
                form.rules.bindings[i],
                form.rules.bindings[j],
                model_of(form, t),
                NodeId(0),
                form_surroundings(form.tables, today, now),
            ),
        nodes_for(
            form.rules.bindings[i].path,
            model_of(form, t),
            form_surroundings(form.tables, today, now),
        ).contains(n),
    ensures
        ({
            let b = form.rules.bindings[i];
            let u = form_calculations(form, t, today, now).tree;
            let env = form_surroundings(form.tables, today, now);
            &&& is_settled(b, n, u, env)
            &&& u.children(n).len() == 0 ==> forall|k: int|
                0 <= k < calculation_finding(b, u, u, n, env).len() ==> !((#[trigger]
                calculation_finding(b, u, u, n, env)[k]).kind is Calculation)
        }),
{
    lemma_model_rooted(form, t);
    let b = form.rules.bindings[i];
    let env = form_surroundings(form.tables, today, now);
    let w = Working { tree: model_of(form, t), computed: Seq::empty(), failed: Seq::empty() };
    law_calculations_settle(form.rules.bindings, w, NodeId(0), i, n, env);
    let u = form_calculations(form, t, today, now).tree;
    lemma_bound(w.tree, u, NodeId(0), b.path, env);
    if u.children(n).len() == 0 {
        assert(u.has(n));
        assert(u.below(n, 0, false) == Seq::<NodeId>::empty());
        assert(u.descendants(n) == Seq::<NodeId>::empty());
        assert(u.value(n) + Seq::<char>::empty() == u.value(n));
    }
}

} // verus!
