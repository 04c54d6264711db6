//! What a finding means, and when one is owed.

use crate::eval::frame::same_shape;
use crate::eval::value::truth;
use crate::eval::{eval, Surroundings};
use crate::functions::text_result;
use crate::parser::ast::ExprModel;
use crate::rules::binding::{BindingModel, KindModel, ViolationModel};
use crate::rules::checking::{
    all_findings, all_leftovers, at, calculation_finding, constraint_finding, derived, findings,
    hidden_itself, in_form_order, is_hidden, is_named, lemma_nodes_for_in, nodes_for, own_relevance,
    relevance_finding, required_finding, shown, Aspect, Derived, RulesModel,
};
use crate::rules::laws::{
    is_found_at, law_every_rule_is_run, lemma_findings, lemma_joined, lemma_node_follows,
};
use crate::text::laws::{all_white, law_blank_is_all_white};
use crate::tree::{NodeId, Tree};
use vstd::prelude::*;

verus! {

// ---------------------------------------------------------------------------
// What a finding means
// ---------------------------------------------------------------------------

/// Whether a rule comes to a value that counts as true at a node.
pub open spec fn comes_true(
    rule: Option<ExprModel>,
    t: Tree,
    n: NodeId,
    env: Surroundings,
) -> bool {
    rule matches Some(e) && eval(e, t, at(n), env) matches Ok(v) && truth(v)
}

/// Whether a rule comes to a value that counts as false at a node.
pub open spec fn comes_false(
    rule: Option<ExprModel>,
    t: Tree,
    n: NodeId,
    env: Surroundings,
) -> bool {
    rule matches Some(e) && eval(e, t, at(n), env) matches Ok(v) && !truth(v)
}

/// What is said where a rule of a binding cannot be evaluated.
pub open spec fn failed(b: BindingModel, place: Seq<char>, why: Seq<char>) -> ViolationModel {
    ViolationModel {
        path: b.path,
        node_path: place,
        kind: KindModel::Failed(why),
        message: None,
    }
}

/// Whether what is said of an answer is so: by a binding, of a node that it
/// names, in a document that holds `t` and derives `u`.
pub open spec fn is_so(
    bindings: Seq<BindingModel>,
    t: Tree,
    u: Tree,
    env: Surroundings,
    b: int,
    n: NodeId,
    v: ViolationModel,
) -> bool {
    &&& 0 <= b < bindings.len()
    &&& nodes_for(bindings[b].path, t, env).contains(n)
    &&& v.path == bindings[b].path
    &&& v.node_path == t.address_of(n)
    &&& match v.kind {
        KindModel::Required => {
            &&& comes_true(bindings[b].required, u, n, env)
            &&& all_white(t.string_value(n))
            &&& v.message == bindings[b].required_message
        },
        KindModel::Constraint => {
            &&& comes_false(bindings[b].constraint, u, n, env)
            &&& !all_white(t.string_value(n))
            &&& v.message == bindings[b].constraint_message
        },
        _ => false,
    }
}

/// An answer is reported missing only where the form requires one there by
/// what it derives, and none was given; and reported wrong only where one was
/// given and its constraint comes out false. Both are said of a question that
/// is asked.
pub proof fn law_what_is_said_of_an_answer_is_so(
    rules: RulesModel,
    t: Tree,
    env: Surroundings,
    v: ViolationModel,
)
    requires
        all_findings(rules.bindings, rules.order, t, env).contains(v),
        v.kind is Required || v.kind is Constraint,
    ensures
        exists|b: int, n: NodeId|
            #[trigger] is_so(
                rules.bindings,
                t,
                derived(rules.bindings, rules.order, t, env).tree,
                env,
                b,
                n,
                v,
            ) && !is_hidden(rules.bindings, t, n, env),
{
    let m = rules.bindings;
    let all = in_form_order(m.len());
    let u = derived(m, rules.order, t, env).tree;
    let a = findings(Aspect::Relevance, m, all, 0, t, t, env);
    let c = derived(m, rules.order, t, env).found;
    let d = findings(Aspect::Answer, m, all, 0, t, u, env);
    lemma_joined(a + c, d, v);
    lemma_joined(a, c, v);
    lemma_findings(Aspect::Relevance, m, all, 0, t, t, env, v);
    lemma_findings(Aspect::Answer, m, all, 0, t, u, env, v);
    if a.contains(v) {
        let (i, n) = choose|i: int, n: NodeId|
            0 <= i < all.len() && #[trigger] is_found_at(
                Aspect::Relevance,
                m,
                t,
                t,
                env,
                all[i],
                n,
                v,
            );
        let f = relevance_finding(m[all[i]], t, n, env);
        let k = choose|k: int| 0 <= k < f.len() && f[k] == v;
        assert(false);
    } else if c.contains(v) {
        lemma_calculations_alone(m, rules.order, t, env, v);
        assert(false);
    } else {
        let (i, n) = choose|i: int, n: NodeId|
            0 <= i < all.len() && #[trigger] is_found_at(
                Aspect::Answer,
                m,
                t,
                u,
                env,
                all[i],
                n,
                v,
            );
        let b = m[all[i]];
        let f = required_finding(b, t, u, n, env);
        let g = constraint_finding(b, t, u, n, env);
        lemma_joined(f, g, v);
        law_blank_is_all_white(t.string_value(n));
        if f.contains(v) {
            let k = choose|k: int| 0 <= k < f.len() && f[k] == v;
        } else {
            let k = choose|k: int| 0 <= k < g.len() && g[k] == v;
        }
        assert(is_so(m, t, u, env, all[i], n, v));
    }
}

proof fn lemma_alone_nodes(
    x: Derived,
    bindings: Seq<BindingModel>,
    b: BindingModel,
    nodes: Seq<NodeId>,
    j: int,
    t: Tree,
    env: Surroundings,
    v: ViolationModel,
)
    requires
        0 <= j,
        x.with_nodes(bindings, b, nodes, j, t, env).found.contains(v),
        v.kind is Required || v.kind is Constraint,
    ensures
        x.found.contains(v),
    decreases nodes.len() - j,
{
    if j < nodes.len() {
        let n = nodes[j];
        let next = x.with_node(bindings, b, t, n, env);
        lemma_alone_nodes(next, bindings, b, nodes, j + 1, t, env, v);
        let f = calculation_finding(b, t, x.tree, n, env);
        lemma_joined(x.found, f, v);
        if f.contains(v) {
            let k = choose|k: int| 0 <= k < f.len() && f[k] == v;
        }
    }
}

proof fn lemma_alone_order(
    x: Derived,
    bindings: Seq<BindingModel>,
    order: Seq<int>,
    k: int,
    t: Tree,
    env: Surroundings,
    v: ViolationModel,
)
    requires
        0 <= k,
        x.with_order(bindings, order, k, t, env).found.contains(v),
        v.kind is Required || v.kind is Constraint,
    ensures
        x.found.contains(v),
    decreases order.len() - k,
{
    if k < order.len() {
        let b = bindings[order[k]];
        let nodes = nodes_for(b.path, t, env);
        let next = x.with_nodes(bindings, b, nodes, 0, t, env);
        lemma_alone_order(next, bindings, order, k + 1, t, env, v);
        lemma_alone_nodes(x, bindings, b, nodes, 0, t, env, v);
    }
}

/// Calculations say nothing of what is required or rejected.
proof fn lemma_calculations_alone(
    bindings: Seq<BindingModel>,
    order: Seq<int>,
    t: Tree,
    env: Surroundings,
    v: ViolationModel,
)
    requires
        v.kind is Required || v.kind is Constraint,
    ensures
        !derived(bindings, order, t, env).found.contains(v),
{
    let x = Derived { tree: t, found: Seq::empty() };
    if derived(bindings, order, t, env).found.contains(v) {
        lemma_alone_order(x, bindings, order, 0, t, env, v);
    }
}

/// An answer that the form requires by what it derives is reported missing
/// where none was given, and one that was given is reported wrong where its
/// constraint comes out false. So is a rule that cannot be evaluated. All
/// this of a question that is asked.
pub proof fn law_what_is_wrong_is_reported(
    rules: RulesModel,
    t: Tree,
    env: Surroundings,
    b: int,
    n: NodeId,
)
    requires
        0 <= b < rules.bindings.len(),
        nodes_for(rules.bindings[b].path, t, env).contains(n),
        !is_hidden(rules.bindings, t, n, env),
    ensures
        ({
            let rule = rules.bindings[b];
            let u = derived(rules.bindings, rules.order, t, env).tree;
            let found = all_findings(rules.bindings, rules.order, t, env);
            let place = t.address_of(n);
            &&& comes_true(rule.required, u, n, env) && all_white(t.string_value(n))
                ==> found.contains(
                ViolationModel {
                    path: rule.path,
                    node_path: place,
                    kind: KindModel::Required,
                    message: rule.required_message,
                },
            )
            &&& comes_false(rule.constraint, u, n, env) && !all_white(t.string_value(n))
                ==> found.contains(
                ViolationModel {
                    path: rule.path,
                    node_path: place,
                    kind: KindModel::Constraint,
                    message: rule.constraint_message,
                },
            )
            &&& rule.required matches Some(e) ==> (eval(e, u, at(n), env) matches Err(why)
                ==> found.contains(failed(rule, place, why)))
            &&& rule.constraint matches Some(e) ==> (eval(e, u, at(n), env) matches Err(why)
                ==> !all_white(t.string_value(n)) ==> found.contains(failed(rule, place, why)))
        }),
{
    let m = rules.bindings;
    let rule = m[b];
    let u = derived(m, rules.order, t, env).tree;
    let f = required_finding(rule, t, u, n, env);
    let g = constraint_finding(rule, t, u, n, env);
    law_blank_is_all_white(t.string_value(n));
    if f.len() > 0 {
        let v = f[0];
        assert(f.contains(v));
        lemma_joined(f, g, v);
        law_every_rule_is_run(m, rules.order, t, env, b, n, v);
    }
    if g.len() > 0 {
        let v = g[0];
        assert(g.contains(v));
        lemma_joined(f, g, v);
        law_every_rule_is_run(m, rules.order, t, env, b, n, v);
    }
}

// ---------------------------------------------------------------------------
// Calculations
// ---------------------------------------------------------------------------

/// Whether a calculation disagrees with what a document `t` holds at a node
/// that is asked, by the values of a document `w` of the same shape.
pub open spec fn disagrees(
    bindings: Seq<BindingModel>,
    t: Tree,
    w: Tree,
    env: Surroundings,
    b: int,
    n: NodeId,
    stored: Seq<char>,
    computed: Seq<char>,
) -> bool {
    &&& 0 <= b < bindings.len()
    &&& nodes_for(bindings[b].path, t, env).contains(n)
    &&& !is_hidden(bindings, t, n, env)
    &&& same_shape(t, w)
    &&& bindings[b].calculate matches Some(e) && text_result(eval(e, w, at(n), env), w) == Ok::<
        Seq<char>,
        Seq<char>,
    >(computed)
    &&& stored == t.string_value(n)
    &&& stored != computed
}

proof fn lemma_disagreement_nodes(
    x: Derived,
    bindings: Seq<BindingModel>,
    b: int,
    nodes: Seq<NodeId>,
    j: int,
    t: Tree,
    env: Surroundings,
    v: ViolationModel,
) -> (r: (Tree, NodeId))
    requires
        t.wf(),
        x.tree.wf(),
        same_shape(t, x.tree),
        0 <= j,
        0 <= b < bindings.len(),
        nodes == nodes_for(bindings[b].path, t, env),
        v.kind is Calculation,
    ensures
        x.with_nodes(bindings, bindings[b], nodes, j, t, env).tree.wf(),
        same_shape(t, x.with_nodes(bindings, bindings[b], nodes, j, t, env).tree),
        x.with_nodes(bindings, bindings[b], nodes, j, t, env).found.contains(v)
            && !x.found.contains(v) ==> disagrees(
            bindings,
            t,
            r.0,
            env,
            b,
            r.1,
            v.kind->stored,
            v.kind->computed,
        ),
    decreases nodes.len() - j,
{
    if j < nodes.len() {
        let n = nodes[j];
        assert(nodes.contains(n));
        lemma_nodes_for_in(bindings[b].path, t, env);
        assert(t.has(nodes[j]));
        lemma_node_follows(x, bindings, bindings[b], t, n, env);
        let next = x.with_node(bindings, bindings[b], t, n, env);
        let later = lemma_disagreement_nodes(next, bindings, b, nodes, j + 1, t, env, v);
        if next.found.contains(v) && !x.found.contains(v) {
            let f = calculation_finding(bindings[b], t, x.tree, n, env);
            lemma_joined(x.found, f, v);
            let k = choose|k: int| 0 <= k < f.len() && f[k] == v;
            (x.tree, n)
        } else {
            later
        }
    } else {
        (t, NodeId(0))
    }
}

proof fn lemma_disagreement(
    x: Derived,
    bindings: Seq<BindingModel>,
    order: Seq<int>,
    k: int,
    t: Tree,
    env: Surroundings,
    v: ViolationModel,
) -> (r: (int, Tree, NodeId))
    requires
        t.wf(),
        x.tree.wf(),
        same_shape(t, x.tree),
        0 <= k,
        forall|i: int| 0 <= i < order.len() ==> 0 <= #[trigger] order[i] < bindings.len(),
        v.kind is Calculation,
        x.with_order(bindings, order, k, t, env).found.contains(v),
        !x.found.contains(v),
    ensures
        disagrees(bindings, t, r.1, env, r.0, r.2, v.kind->stored, v.kind->computed),
    decreases order.len() - k,
{
    let b = order[k];
    let nodes = nodes_for(bindings[b].path, t, env);
    let found = lemma_disagreement_nodes(x, bindings, b, nodes, 0, t, env, v);
    let next = x.with_nodes(bindings, bindings[b], nodes, 0, t, env);
    if next.found.contains(v) {
        (b, found.0, found.1)
    } else {
        lemma_disagreement(next, bindings, order, k + 1, t, env, v)
    }
}

/// A calculation is reported only where it comes to something else than the
/// document holds at a question that is asked; both are reported as they are.
pub proof fn law_reported_calculations_disagree(
    rules: RulesModel,
    t: Tree,
    env: Surroundings,
    v: ViolationModel,
)
    requires
        rules.wf(),
        t.wf(),
        all_findings(rules.bindings, rules.order, t, env).contains(v),
        v.kind is Calculation,
    ensures
        exists|b: int, w: Tree, n: NodeId|
            #[trigger] disagrees(
                rules.bindings,
                t,
                w,
                env,
                b,
                n,
                v.kind->stored,
                v.kind->computed,
            ),
{
    let m = rules.bindings;
    let all = in_form_order(m.len());
    let u = derived(m, rules.order, t, env).tree;
    let a = findings(Aspect::Relevance, m, all, 0, t, t, env);
    let c = derived(m, rules.order, t, env).found;
    let d = findings(Aspect::Answer, m, all, 0, t, u, env);
    lemma_joined(a + c, d, v);
    lemma_joined(a, c, v);
    lemma_findings(Aspect::Relevance, m, all, 0, t, t, env, v);
    lemma_findings(Aspect::Answer, m, all, 0, t, u, env, v);
    if a.contains(v) {
        let (i, n) = choose|i: int, n: NodeId|
            0 <= i < all.len() && #[trigger] is_found_at(
                Aspect::Relevance,
                m,
                t,
                t,
                env,
                all[i],
                n,
                v,
            );
        let f = relevance_finding(m[all[i]], t, n, env);
        let k = choose|k: int| 0 <= k < f.len() && f[k] == v;
    } else if d.contains(v) {
        let (i, n) = choose|i: int, n: NodeId|
            0 <= i < all.len() && #[trigger] is_found_at(
                Aspect::Answer,
                m,
                t,
                u,
                env,
                all[i],
                n,
                v,
            );
        let f = required_finding(m[all[i]], t, u, n, env);
        let g = constraint_finding(m[all[i]], t, u, n, env);
        lemma_joined(f, g, v);
        if f.contains(v) {
            let k = choose|k: int| 0 <= k < f.len() && f[k] == v;
        } else {
            let k = choose|k: int| 0 <= k < g.len() && g[k] == v;
        }
    } else {
        let x = Derived { tree: t, found: Seq::empty() };
        let r = lemma_disagreement(x, m, rules.order, 0, t, env, v);
        assert(disagrees(m, t, r.1, env, r.0, r.2, v.kind->stored, v.kind->computed));
    }
}

proof fn lemma_untouched_nodes(
    x: Derived,
    bindings: Seq<BindingModel>,
    b: int,
    nodes: Seq<NodeId>,
    j: int,
    t: Tree,
    env: Surroundings,
    n: NodeId,
)
    requires
        t.wf(),
        x.tree.wf(),
        same_shape(t, x.tree),
        t.has(n),
        0 <= j,
        0 <= b < bindings.len(),
        nodes == nodes_for(bindings[b].path, t, env),
        is_hidden(bindings, t, n, env) || bindings[b].calculate is None || !nodes.contains(n),
    ensures
        x.with_nodes(bindings, bindings[b], nodes, j, t, env).tree.wf(),
        same_shape(t, x.with_nodes(bindings, bindings[b], nodes, j, t, env).tree),
        x.with_nodes(bindings, bindings[b], nodes, j, t, env).tree.value(n) == x.tree.value(n),
    decreases nodes.len() - j,
{
    if j < nodes.len() {
        let m = nodes[j];
        assert(nodes.contains(m));
        lemma_nodes_for_in(bindings[b].path, t, env);
        assert(t.has(nodes[j]));
        lemma_node_follows(x, bindings, bindings[b], t, m, env);
        let next = x.with_node(bindings, bindings[b], t, m, env);
        assert(next.tree.value(n) == x.tree.value(n));
        lemma_untouched_nodes(next, bindings, b, nodes, j + 1, t, env, n);
    }
}

proof fn lemma_untouched(
    x: Derived,
    bindings: Seq<BindingModel>,
    order: Seq<int>,
    k: int,
    t: Tree,
    env: Surroundings,
    n: NodeId,
)
    requires
        t.wf(),
        x.tree.wf(),
        same_shape(t, x.tree),
        t.has(n),
        0 <= k,
        forall|i: int| 0 <= i < order.len() ==> 0 <= #[trigger] order[i] < bindings.len(),
        is_hidden(bindings, t, n, env) || forall|b: int|
            0 <= b < bindings.len() && (#[trigger] bindings[b]).calculate is Some ==> !nodes_for(
                bindings[b].path,
                t,
                env,
            ).contains(n),
    ensures
        same_shape(t, x.with_order(bindings, order, k, t, env).tree),
        x.with_order(bindings, order, k, t, env).tree.value(n) == x.tree.value(n),
    decreases order.len() - k,
{
    if k < order.len() {
        let b = order[k];
        let nodes = nodes_for(bindings[b].path, t, env);
        assert(0 <= order[k] < bindings.len());
        assert(bindings[b].calculate is Some || bindings[b].calculate is None);
        lemma_untouched_nodes(x, bindings, b, nodes, 0, t, env, n);
        lemma_untouched(
            x.with_nodes(bindings, bindings[b], nodes, 0, t, env),
            bindings,
            order,
            k + 1,
            t,
            env,
            n,
        );
    }
}

/// Answers are judged in the document as it was handed in, but for what is
/// calculated: a node that nothing calculates, or that is not asked, holds
/// there what it held, and nothing but values is another.
pub proof fn law_only_calculated_values_are_derived(
    rules: RulesModel,
    t: Tree,
    env: Surroundings,
    n: NodeId,
)
    requires
        rules.wf(),
        t.wf(),
        t.has(n),
        is_hidden(rules.bindings, t, n, env) || forall|b: int|
            0 <= b < rules.bindings.len() && (
            #[trigger] rules.bindings[b]).calculate is Some ==> !nodes_for(
                rules.bindings[b].path,
                t,
                env,
            ).contains(n),
    ensures
        same_shape(t, derived(rules.bindings, rules.order, t, env).tree),
        derived(rules.bindings, rules.order, t, env).tree.value(n) == t.value(n),
{
    let x = Derived { tree: t, found: Seq::empty() };
    lemma_untouched(x, rules.bindings, rules.order, 0, t, env, n);
}

// ---------------------------------------------------------------------------
// Relevance
// ---------------------------------------------------------------------------

/// Whether a binding judges whether a node is asked.
pub open spec fn judges(b: BindingModel, t: Tree, n: NodeId, env: Surroundings) -> bool {
    b.relevant is Some && nodes_for(b.path, t, env).contains(n)
}

proof fn lemma_none_judges(bindings: Seq<BindingModel>, k: int, t: Tree, n: NodeId, env: Surroundings)
    requires
        0 <= k <= bindings.len(),
        forall|j: int| 0 <= j < k ==> !judges(#[trigger] bindings[j], t, n, env),
    ensures
        own_relevance(bindings, k, t, n, env) is None,
    decreases k,
{
    if k > 0 {
        assert(!judges(bindings[k - 1], t, n, env));
        lemma_none_judges(bindings, k - 1, t, n, env);
    }
}

proof fn lemma_last_judges(
    bindings: Seq<BindingModel>,
    k: int,
    b: int,
    t: Tree,
    n: NodeId,
    env: Surroundings,
)
    requires
        0 <= b < k <= bindings.len(),
        judges(bindings[b], t, n, env),
        forall|j: int| b < j < k ==> !judges(#[trigger] bindings[j], t, n, env),
    ensures
        own_relevance(bindings, k, t, n, env) == own_relevance(bindings, b + 1, t, n, env),
    decreases k,
{
    if k > b + 1 {
        assert(!judges(bindings[k - 1], t, n, env));
        lemma_last_judges(bindings, k - 1, b, t, n, env);
    }
}

/// A node is not asked by a rule of its own exactly where the last rule of
/// relevance that names it comes out false; one that cannot be evaluated
/// hides nothing, and neither does none at all.
pub proof fn law_relevance_is_what_its_rule_comes_to(
    bindings: Seq<BindingModel>,
    t: Tree,
    n: NodeId,
    env: Surroundings,
    b: int,
)
    requires
        0 <= b < bindings.len(),
        judges(bindings[b], t, n, env),
        forall|j: int| b < j < bindings.len() ==> !judges(#[trigger] bindings[j], t, n, env),
    ensures
        hidden_itself(bindings, t, n, env) <==> comes_false(bindings[b].relevant, t, n, env),
{
    lemma_last_judges(bindings, bindings.len() as int, b, t, n, env);
}

/// A question is not asked exactly where a rule that names it, or names
/// something it stands in, hides that.
pub proof fn law_hidden_by_itself_or_from_above(
    bindings: Seq<BindingModel>,
    t: Tree,
    n: NodeId,
    env: Surroundings,
)
    ensures
        (forall|j: int| 0 <= j < bindings.len() ==> !judges(#[trigger] bindings[j], t, n, env))
            ==> !hidden_itself(bindings, t, n, env),
        is_named(bindings, bindings.len() as int, t, n, env) ==> (is_hidden(bindings, t, n, env)
            <==> exists|a: NodeId| #[trigger]
            hidden_itself(bindings, t, a, env) && (a == n || t.ancestors(n).contains(a))),
        !is_named(bindings, bindings.len() as int, t, n, env) ==> !is_hidden(
            bindings,
            t,
            n,
            env,
        ),
{
    if forall|j: int| 0 <= j < bindings.len() ==> !judges(#[trigger] bindings[j], t, n, env) {
        lemma_none_judges(bindings, bindings.len() as int, t, n, env);
    }
    let up = t.ancestors(n);
    if exists|a: NodeId| #[trigger]
        hidden_itself(bindings, t, a, env) && (a == n || up.contains(a)) {
        let a = choose|a: NodeId| #[trigger]
            hidden_itself(bindings, t, a, env) && (a == n || up.contains(a));
        if a != n {
            let i = choose|i: int| 0 <= i < up.len() && up[i] == a;
            assert(hidden_itself(bindings, t, up[i], env));
        }
    }
    if !shown(bindings, t, n, env) && !hidden_itself(bindings, t, n, env) {
        let i = choose|i: int|
            0 <= i < up.len() && hidden_itself(bindings, t, #[trigger] up[i], env);
        assert(up.contains(up[i]));
    }
}

// ---------------------------------------------------------------------------
// Leftovers
// ---------------------------------------------------------------------------

/// What is said of a value that was left in a question nobody was asked is
/// so: a value was left there, nobody was asked, and its constraint comes out
/// false or its calculation comes to something else. Nothing is required
/// there.
pub proof fn law_what_is_said_of_a_leftover_is_so(
    rules: RulesModel,
    t: Tree,
    env: Surroundings,
    v: ViolationModel,
)
    requires
        all_leftovers(rules.bindings, rules.order, t, env).contains(v),
    ensures
        !(v.kind is Required),
        exists|b: int, n: NodeId| #[trigger]
            is_leftover_so(
                rules.bindings,
                t,
                derived(rules.bindings, rules.order, t, env).tree,
                env,
                b,
                n,
                v,
            ),
{
    let m = rules.bindings;
    let all = in_form_order(m.len());
    let u = derived(m, rules.order, t, env).tree;
    lemma_findings(Aspect::Leftover, m, all, 0, t, u, env, v);
    let (i, n) = choose|i: int, n: NodeId|
        0 <= i < all.len() && #[trigger] is_found_at(
            Aspect::Leftover,
            m,
            t,
            u,
            env,
            all[i],
            n,
            v,
        );
    let f = calculation_finding(m[all[i]], t, u, n, env);
    let g = constraint_finding(m[all[i]], t, u, n, env);
    lemma_joined(f, g, v);
    law_blank_is_all_white(t.string_value(n));
    if f.contains(v) {
        let k = choose|k: int| 0 <= k < f.len() && f[k] == v;
    } else {
        let k = choose|k: int| 0 <= k < g.len() && g[k] == v;
    }
    assert(is_leftover_so(m, t, u, env, all[i], n, v));
}

/// Whether what is said of a value left at a node is so.
pub open spec fn is_leftover_so(
    bindings: Seq<BindingModel>,
    t: Tree,
    u: Tree,
    env: Surroundings,
    b: int,
    n: NodeId,
    v: ViolationModel,
) -> bool {
    &&& 0 <= b < bindings.len()
    &&& nodes_for(bindings[b].path, t, env).contains(n)
    &&& is_hidden(bindings, t, n, env)
    &&& !all_white(t.string_value(n))
    &&& v.path == bindings[b].path
    &&& v.node_path == t.address_of(n)
    &&& match v.kind {
        KindModel::Constraint => comes_false(bindings[b].constraint, u, n, env),
        KindModel::Calculation { stored, computed } => {
            &&& stored == t.string_value(n)
            &&& stored != computed
            &&& bindings[b].calculate matches Some(e) && text_result(eval(e, u, at(n), env), u)
                == Ok::<Seq<char>, Seq<char>>(computed)
        },
        KindModel::Failed(why) => (bindings[b].constraint matches Some(e) && eval(
            e,
            u,
            at(n),
            env,
        ) is Err) || (bindings[b].calculate matches Some(e) && text_result(
            eval(e, u, at(n), env),
            u,
        ) is Err),
        KindModel::Required => false,
    }
}

} // verus!
