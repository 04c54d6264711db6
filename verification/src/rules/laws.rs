//! What holds of everything that rules find.

use crate::eval::frame::same_shape;
use crate::eval::{eval, Surroundings};
use crate::functions::text_result;
use crate::rules::binding::{BindingModel, ViolationModel};
use crate::rules::checking::{
    all_findings, all_leftovers, at, binding_findings, calculation_finding, constraint_finding,
    derived, findings, findings_at, hidden_itself, in_form_order, is_hidden, lemma_nodes_for_in,
    nodes_for, shown, Aspect, Derived, RulesModel,
};
use crate::rules::order::{depends, law_order_respects_dependencies, ordering};
use crate::text::is_blank;
use crate::tree::{NodeId, Tree};
use vstd::prelude::*;

verus! {

// ---------------------------------------------------------------------------
// The cascade
// ---------------------------------------------------------------------------

/// A question below one that is not asked is not asked, whatever its own
/// expression says.
pub proof fn law_relevance_cascades(
    bindings: Seq<BindingModel>,
    t: Tree,
    n: NodeId,
    above: NodeId,
    env: Surroundings,
)
    requires
        t.wf(),
        t.has(n),
        t.ancestors(n).contains(above),
        !shown(bindings, t, above, env),
    ensures
        !shown(bindings, t, n, env),
{
    t.lemma_ancestors_in(n);
    let up = t.ancestors(n);
    let k = choose|k: int| 0 <= k < up.len() && up[k] == above;
    assert(t.has(up[k]));
    if !hidden_itself(bindings, t, above, env) {
        let above_it = t.ancestors(above);
        let i = choose|i: int|
            0 <= i < above_it.len() && hidden_itself(bindings, t, #[trigger] above_it[i], env);
        assert(above_it.contains(above_it[i]));
        t.lemma_above_above(n, above, above_it[i]);
        let j = choose|j: int| 0 <= j < up.len() && up[j] == above_it[i];
        assert(hidden_itself(bindings, t, up[j], env));
    } else {
        assert(hidden_itself(bindings, t, up[k], env));
    }
}

// ---------------------------------------------------------------------------
// What is found, and where
// ---------------------------------------------------------------------------

/// Whether a finding is one of what a binding says of a node.
pub open spec fn is_found_at(
    aspect: Aspect,
    bindings: Seq<BindingModel>,
    t: Tree,
    u: Tree,
    env: Surroundings,
    b: int,
    n: NodeId,
    v: ViolationModel,
) -> bool {
    &&& 0 <= b < bindings.len()
    &&& nodes_for(bindings[b].path, t, env).contains(n)
    &&& findings_at(aspect, bindings, bindings[b], t, u, n, env).contains(v)
}

proof fn lemma_node_findings(
    aspect: Aspect,
    bindings: Seq<BindingModel>,
    b: BindingModel,
    nodes: Seq<NodeId>,
    j: int,
    t: Tree,
    u: Tree,
    env: Surroundings,
    v: ViolationModel,
)
    requires
        0 <= j <= nodes.len(),
    ensures
        binding_findings(aspect, bindings, b, nodes, j, t, u, env).contains(v) <==> exists|k: int|
            j <= k < nodes.len() && findings_at(
                aspect,
                bindings,
                b,
                t,
                u,
                #[trigger] nodes[k],
                env,
            ).contains(v),
    decreases nodes.len() - j,
{
    if j < nodes.len() {
        lemma_node_findings(aspect, bindings, b, nodes, j + 1, t, u, env, v);
        let first = findings_at(aspect, bindings, b, t, u, nodes[j], env);
        let rest = binding_findings(aspect, bindings, b, nodes, j + 1, t, u, env);
        lemma_joined(first, rest, v);
    } else {
        assert(binding_findings(aspect, bindings, b, nodes, j, t, u, env) == Seq::<
            ViolationModel,
        >::empty());
    }
}

pub proof fn lemma_joined(a: Seq<ViolationModel>, b: Seq<ViolationModel>, v: ViolationModel)
    ensures
        (a + b).contains(v) <==> a.contains(v) || b.contains(v),
{
    let r = a + b;
    if a.contains(v) {
        let k = choose|k: int| 0 <= k < a.len() && a[k] == v;
        assert(r[k] == v);
    }
    if b.contains(v) {
        let k = choose|k: int| 0 <= k < b.len() && b[k] == v;
        assert(r[a.len() + k] == v);
    }
    if r.contains(v) {
        let k = choose|k: int| 0 <= k < r.len() && r[k] == v;
        if k < a.len() {
            assert(a[k] == v);
        } else {
            assert(b[k - a.len()] == v);
        }
    }
}

pub proof fn lemma_findings(
    aspect: Aspect,
    bindings: Seq<BindingModel>,
    list: Seq<int>,
    k: int,
    t: Tree,
    u: Tree,
    env: Surroundings,
    v: ViolationModel,
)
    requires
        0 <= k <= list.len(),
        forall|i: int| 0 <= i < list.len() ==> 0 <= #[trigger] list[i] < bindings.len(),
    ensures
        findings(aspect, bindings, list, k, t, u, env).contains(v) <==> exists|i: int, n: NodeId|
            k <= i < list.len() && #[trigger] is_found_at(
                aspect,
                bindings,
                t,
                u,
                env,
                list[i],
                n,
                v,
            ),
    decreases list.len() - k,
{
    if k < list.len() {
        lemma_findings(aspect, bindings, list, k + 1, t, u, env, v);
        let b = bindings[list[k]];
        let nodes = nodes_for(b.path, t, env);
        let first = binding_findings(aspect, bindings, b, nodes, 0, t, u, env);
        let rest = findings(aspect, bindings, list, k + 1, t, u, env);
        lemma_node_findings(aspect, bindings, b, nodes, 0, t, u, env, v);
        lemma_joined(first, rest, v);
        if first.contains(v) {
            let j = choose|j: int|
                0 <= j < nodes.len() && findings_at(
                    aspect,
                    bindings,
                    b,
                    t,
                    u,
                    #[trigger] nodes[j],
                    env,
                ).contains(v);
            assert(nodes.contains(nodes[j]));
            assert(is_found_at(aspect, bindings, t, u, env, list[k], nodes[j], v));
        }
        if exists|i: int, n: NodeId|
            k <= i < list.len() && #[trigger] is_found_at(aspect, bindings, t, u, env, list[i], n, v) {
            let (i, n) = choose|i: int, n: NodeId|
                k <= i < list.len() && #[trigger] is_found_at(
                    aspect,
                    bindings,
                    t,
                    u,
                    env,
                    list[i],
                    n,
                    v,
                );
            if i == k {
                let j = choose|j: int| 0 <= j < nodes.len() && nodes[j] == n;
                assert(findings_at(aspect, bindings, b, t, u, nodes[j], env).contains(v));
            } else {
                assert(is_found_at(aspect, bindings, t, u, env, list[i], n, v));
            }
        }
    } else {
        assert(findings(aspect, bindings, list, k, t, u, env) == Seq::<ViolationModel>::empty());
    }
}

/// Where a question is judged: by one of the bindings that name it, and only
/// while it is asked.
pub open spec fn is_judged_at(
    bindings: Seq<BindingModel>,
    t: Tree,
    env: Surroundings,
    b: int,
    n: NodeId,
    v: ViolationModel,
) -> bool {
    &&& 0 <= b < bindings.len()
    &&& nodes_for(bindings[b].path, t, env).contains(n)
    &&& !is_hidden(bindings, t, n, env)
    &&& v.path == bindings[b].path
    &&& v.node_path == t.address_of(n)
}

// ---------------------------------------------------------------------------
// Derived values
// ---------------------------------------------------------------------------

/// What was derived before a node was reached: the one at `j` of the binding
/// at `i` of the order.
pub open spec fn derived_before(
    bindings: Seq<BindingModel>,
    order: Seq<int>,
    i: int,
    j: int,
    t: Tree,
    env: Surroundings,
) -> Derived
    decreases i, j,
{
    if j > 0 {
        let b = bindings[order[i]];
        derived_before(bindings, order, i, j - 1, t, env).with_node(
            bindings,
            b,
            t,
            nodes_for(b.path, t, env)[j - 1],
            env,
        )
    } else if i > 0 {
        derived_before(
            bindings,
            order,
            i - 1,
            nodes_for(bindings[order[i - 1]].path, t, env).len() as int,
            t,
            env,
        )
    } else {
        Derived { tree: t, found: Seq::empty() }
    }
}

/// Whether one derivation follows another: it adds findings, and changes
/// values alone.
pub open spec fn follows(t: Tree, x: Derived, y: Derived) -> bool {
    &&& y.tree.wf()
    &&& same_shape(t, y.tree)
    &&& x.found.is_prefix_of(y.found)
}

pub open spec fn is_derived_of(t: Tree, x: Derived) -> bool {
    &&& t.wf()
    &&& x.tree.wf()
    &&& same_shape(t, x.tree)
}

pub proof fn lemma_node_follows(
    x: Derived,
    bindings: Seq<BindingModel>,
    b: BindingModel,
    t: Tree,
    n: NodeId,
    env: Surroundings,
)
    requires
        is_derived_of(t, x),
        t.has(n),
    ensures
        follows(t, x, x.with_node(bindings, b, t, n, env)),
{
    let u = x.tree;
    if let Some(e) = b.calculate {
        if let Ok(text) = text_result(eval(e, u, at(n), env), u) {
            u.lemma_with_value_wf(n, text);
        }
    }
}

proof fn lemma_nodes_follow(
    x: Derived,
    bindings: Seq<BindingModel>,
    b: BindingModel,
    nodes: Seq<NodeId>,
    j: int,
    t: Tree,
    env: Surroundings,
)
    requires
        is_derived_of(t, x),
        t.all_in(nodes),
        0 <= j,
    ensures
        follows(t, x, x.with_nodes(bindings, b, nodes, j, t, env)),
    decreases nodes.len() - j,
{
    if j < nodes.len() {
        assert(t.has(nodes[j]));
        lemma_node_follows(x, bindings, b, t, nodes[j], env);
        lemma_nodes_follow(
            x.with_node(bindings, b, t, nodes[j], env),
            bindings,
            b,
            nodes,
            j + 1,
            t,
            env,
        );
    }
}

proof fn lemma_order_follows(
    x: Derived,
    bindings: Seq<BindingModel>,
    order: Seq<int>,
    k: int,
    t: Tree,
    env: Surroundings,
)
    requires
        is_derived_of(t, x),
        0 <= k,
    ensures
        follows(t, x, x.with_order(bindings, order, k, t, env)),
    decreases order.len() - k,
{
    if k < order.len() {
        let b = bindings[order[k]];
        let nodes = nodes_for(b.path, t, env);
        lemma_nodes_for_in(b.path, t, env);
        lemma_nodes_follow(x, bindings, b, nodes, 0, t, env);
        lemma_order_follows(
            x.with_nodes(bindings, b, nodes, 0, t, env),
            bindings,
            order,
            k + 1,
            t,
            env,
        );
    }
}

/// The rest of a derivation, from a node on.
spec fn derived_after(
    x: Derived,
    bindings: Seq<BindingModel>,
    order: Seq<int>,
    i: int,
    j: int,
    t: Tree,
    env: Surroundings,
) -> Derived {
    let b = bindings[order[i]];
    x.with_nodes(bindings, b, nodes_for(b.path, t, env), j, t, env).with_order(
        bindings,
        order,
        i + 1,
        t,
        env,
    )
}

proof fn lemma_derived_before(
    bindings: Seq<BindingModel>,
    order: Seq<int>,
    i: int,
    j: int,
    t: Tree,
    env: Surroundings,
)
    requires
        t.wf(),
        0 <= i < order.len(),
        0 <= j <= nodes_for(bindings[order[i]].path, t, env).len(),
    ensures
        is_derived_of(t, derived_before(bindings, order, i, j, t, env)),
        derived(bindings, order, t, env) == derived_after(
            derived_before(bindings, order, i, j, t, env),
            bindings,
            order,
            i,
            j,
            t,
            env,
        ),
    decreases i, j,
{
    let b = bindings[order[i]];
    let nodes = nodes_for(b.path, t, env);
    if j > 0 {
        lemma_derived_before(bindings, order, i, j - 1, t, env);
        lemma_nodes_for_in(b.path, t, env);
        assert(t.has(nodes[j - 1]));
        lemma_node_follows(
            derived_before(bindings, order, i, j - 1, t, env),
            bindings,
            b,
            t,
            nodes[j - 1],
            env,
        );
    } else if i > 0 {
        let before = nodes_for(bindings[order[i - 1]].path, t, env);
        lemma_derived_before(bindings, order, i - 1, before.len() as int, t, env);
    }
}

/// Every calculation is run, each after those it reads: at every question
/// that is asked, what the binding's calculation finds is reported, by the
/// values that were derived before it, and after all that was found before
/// it. What the calculations it reads find is among that.
pub proof fn law_every_calculation_is_run(
    bindings: Seq<BindingModel>,
    t: Tree,
    env: Surroundings,
    b: int,
    j: int,
)
    requires
        ordering(bindings) is Ok,
        t.wf(),
        0 <= b < bindings.len(),
        bindings[b].calculate is Some,
        0 <= j < nodes_for(bindings[b].path, t, env).len(),
    ensures
        ({
            let order = ordering(bindings)->Ok_0;
            let n = nodes_for(bindings[b].path, t, env)[j];
            let i = order.index_of(b);
            let before = derived_before(bindings, order, i, j, t, env);
            &&& 0 <= i < order.len()
            &&& order[i] == b
            &&& forall|r: int|
                0 <= r < bindings.len() && #[trigger] depends(bindings, b, r) ==> order.take(
                    i,
                ).contains(r)
            &&& same_shape(t, before.tree)
            &&& before.found.is_prefix_of(derived(bindings, order, t, env).found)
            &&& !is_hidden(bindings, t, n, env) ==> (before.found + calculation_finding(
                bindings[b],
                t,
                before.tree,
                n,
                env,
            )).is_prefix_of(derived(bindings, order, t, env).found)
        }),
{
    let m = bindings;
    let order = ordering(bindings)->Ok_0;
    law_order_respects_dependencies(bindings);
    let i = order.index_of(b);
    assert(order.contains(b));
    assert(0 <= i < order.len() && order[i] == b);
    let nodes = nodes_for(m[b].path, t, env);
    let n = nodes[j];
    let before = derived_before(m, order, i, j, t, env);
    lemma_derived_before(m, order, i, j, t, env);
    lemma_nodes_for_in(m[b].path, t, env);
    assert(t.has(nodes[j]));
    lemma_node_follows(before, m, m[b], t, n, env);
    let x = before.with_node(m, m[b], t, n, env);
    lemma_nodes_follow(x, m, m[b], nodes, j + 1, t, env);
    lemma_order_follows(x.with_nodes(m, m[b], nodes, j + 1, t, env), m, order, i + 1, t, env);
}

/// What a calculation found, it found at a question that is asked.
proof fn lemma_calculated_nodes(
    x: Derived,
    bindings: Seq<BindingModel>,
    b: int,
    nodes: Seq<NodeId>,
    j: int,
    t: Tree,
    env: Surroundings,
    v: ViolationModel,
)
    requires
        0 <= j,
        0 <= b < bindings.len(),
        nodes == nodes_for(bindings[b].path, t, env),
        x.with_nodes(bindings, bindings[b], nodes, j, t, env).found.contains(v),
        !x.found.contains(v),
    ensures
        exists|c: int, n: NodeId| #[trigger] is_judged_at(bindings, t, env, c, n, v),
    decreases nodes.len() - j,
{
    if j < nodes.len() {
        let n = nodes[j];
        assert(nodes.contains(n));
        let next = x.with_node(bindings, bindings[b], t, n, env);
        if next.found.contains(v) {
            assert(!is_hidden(bindings, t, n, env));
            let f = calculation_finding(bindings[b], t, x.tree, n, env);
            lemma_joined(x.found, f, v);
            let k = choose|k: int| 0 <= k < f.len() && f[k] == v;
            assert(is_judged_at(bindings, t, env, b, n, v));
        } else {
            lemma_calculated_nodes(next, bindings, b, nodes, j + 1, t, env, v);
        }
    }
}

proof fn lemma_calculated(
    x: Derived,
    bindings: Seq<BindingModel>,
    order: Seq<int>,
    k: int,
    t: Tree,
    env: Surroundings,
    v: ViolationModel,
)
    requires
        0 <= k,
        forall|i: int| 0 <= i < order.len() ==> 0 <= #[trigger] order[i] < bindings.len(),
        x.with_order(bindings, order, k, t, env).found.contains(v),
        !x.found.contains(v),
    ensures
        exists|c: int, n: NodeId| #[trigger] is_judged_at(bindings, t, env, c, n, v),
    decreases order.len() - k,
{
    if k < order.len() {
        let b = order[k];
        let nodes = nodes_for(bindings[b].path, t, env);
        let next = x.with_nodes(bindings, bindings[b], nodes, 0, t, env);
        if next.found.contains(v) {
            lemma_calculated_nodes(x, bindings, b, nodes, 0, t, env, v);
        } else {
            lemma_calculated(next, bindings, order, k + 1, t, env, v);
        }
    }
}

/// No answer is required, rejected or held to a calculation where the
/// question is not asked: every finding but a rule that could not be
/// evaluated is at a node that is.
pub proof fn law_only_asked_questions_are_judged(
    rules: RulesModel,
    t: Tree,
    env: Surroundings,
    v: ViolationModel,
)
    requires
        rules.wf(),
        t.wf(),
        all_findings(rules.bindings, rules.order, t, env).contains(v),
        !(v.kind is Failed),
    ensures
        exists|b: int, n: NodeId| #[trigger] is_judged_at(rules.bindings, t, env, b, n, v),
{
    let m = rules.bindings;
    let all = in_form_order(m.len());
    let u = derived(m, rules.order, t, env).tree;
    let a = findings(Aspect::Relevance, m, all, 0, t, t, env);
    let c = derived(m, rules.order, t, env).found;
    let d = findings(Aspect::Answer, m, all, 0, t, u, env);
    lemma_joined(a + c, d, v);
    lemma_joined(a, c, v);
    lemma_findings(Aspect::Relevance, m, all, 0, t, t, env, v);
    lemma_findings(Aspect::Answer, m, all, 0, t, u, env, v);
    if a.contains(v) {
        let (i, n) = choose|i: int, n: NodeId|
            0 <= i < all.len() && #[trigger] is_found_at(
                Aspect::Relevance,
                m,
                t,
                t,
                env,
                all[i],
                n,
                v,
            );
        let f = findings_at(Aspect::Relevance, m, m[all[i]], t, t, n, env);
        let k = choose|k: int| 0 <= k < f.len() && f[k] == v;
        assert(v.kind is Failed);
    } else if c.contains(v) {
        lemma_calculated(
            Derived { tree: t, found: Seq::empty() },
            m,
            rules.order,
            0,
            t,
            env,
            v,
        );
    } else {
        let (i, n) = choose|i: int, n: NodeId|
            0 <= i < all.len() && #[trigger] is_found_at(
                Aspect::Answer,
                m,
                t,
                u,
                env,
                all[i],
                n,
                v,
            );
        let f = findings_at(Aspect::Answer, m, m[all[i]], t, u, n, env);
        let k = choose|k: int| 0 <= k < f.len() && f[k] == v;
        assert(is_judged_at(m, t, env, all[i], n, v));
    }
}

/// Every rule is run at every node it names: whatever a binding says there
/// is among the findings, a rule that could not be evaluated too. What is
/// required of an answer that was given, or of a blank one, is evaluated
/// among the derived values.
pub proof fn law_every_rule_is_run(
    bindings: Seq<BindingModel>,
    order: Seq<int>,
    t: Tree,
    env: Surroundings,
    b: int,
    n: NodeId,
    v: ViolationModel,
)
    requires
        0 <= b < bindings.len(),
        nodes_for(bindings[b].path, t, env).contains(n),
        findings_at(Aspect::Relevance, bindings, bindings[b], t, t, n, env).contains(v)
            || findings_at(
            Aspect::Answer,
            bindings,
            bindings[b],
            t,
            derived(bindings, order, t, env).tree,
            n,
            env,
        ).contains(v),
    ensures
        all_findings(bindings, order, t, env).contains(v),
{
    let all = in_form_order(bindings.len());
    let u = derived(bindings, order, t, env).tree;
    let a = findings(Aspect::Relevance, bindings, all, 0, t, t, env);
    let c = derived(bindings, order, t, env).found;
    let d = findings(Aspect::Answer, bindings, all, 0, t, u, env);
    lemma_joined(a + c, d, v);
    lemma_joined(a, c, v);
    assert(all[b] == b);
    if findings_at(Aspect::Relevance, bindings, bindings[b], t, t, n, env).contains(v) {
        lemma_findings(Aspect::Relevance, bindings, all, 0, t, t, env, v);
        assert(is_found_at(Aspect::Relevance, bindings, t, t, env, all[b], n, v));
    } else {
        lemma_findings(Aspect::Answer, bindings, all, 0, t, u, env, v);
        assert(is_found_at(Aspect::Answer, bindings, t, u, env, all[b], n, v));
    }
}

/// A value left in a question that is not asked is held to its constraint
/// and to its calculation before it is sent: what either finds of it is
/// reported.
pub proof fn law_leftover_values_are_reported(
    bindings: Seq<BindingModel>,
    order: Seq<int>,
    t: Tree,
    env: Surroundings,
    b: int,
    n: NodeId,
    v: ViolationModel,
)
    requires
        0 <= b < bindings.len(),
        nodes_for(bindings[b].path, t, env).contains(n),
        is_hidden(bindings, t, n, env),
        !is_blank(t.string_value(n)),
        constraint_finding(
            bindings[b],
            t,
            derived(bindings, order, t, env).tree,
            n,
            env,
        ).contains(v) || calculation_finding(
            bindings[b],
            t,
            derived(bindings, order, t, env).tree,
            n,
            env,
        ).contains(v),
    ensures
        all_leftovers(bindings, order, t, env).contains(v),
{
    let all = in_form_order(bindings.len());
    let u = derived(bindings, order, t, env).tree;
    let c = calculation_finding(bindings[b], t, u, n, env);
    let d = constraint_finding(bindings[b], t, u, n, env);
    lemma_joined(c, d, v);
    lemma_findings(Aspect::Leftover, bindings, all, 0, t, u, env, v);
    assert(all[b] == b);
    assert(is_found_at(Aspect::Leftover, bindings, t, u, env, all[b], n, v));
}

} // verus!
