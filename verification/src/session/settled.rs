//! A session whose calculations have settled.

use crate::eval::frame::{lemma_address_same, same_shape};
use crate::eval::{eval, Surroundings};
use crate::functions::text_result;
use crate::number::counting::EXACT;
use crate::parser::ast::Axis;
use crate::rules::addresses::{
    law_address_leads_to_its_node, line_to, reads_as_written, step_to, steps_to,
};
use crate::rules::binding::BindingModel;
use crate::rules::checking::{at, lemma_nodes_for_in, nodes_for};
use crate::rules::form::{form_surroundings, model_of, FormModel, MODEL_ROOT};
use crate::rules::live::{form_calculations, place_of, Working};
use crate::rules::mirroring::{is_named_apart, lemma_place_in_model};
use crate::rules::modelling::{lemma_model_holds, lemma_model_written, place_in_model};
use crate::rules::order::{depends, ordering};
use crate::rules::settling::{
    is_bound_once, is_rooted, is_settled, is_kept_by, is_written_out,
    law_form_calculations_settle, lemma_bound, lemma_idle, lemma_model_rooted, model_size,
};
use crate::session::answers::{answer_at, node_at};
use crate::session::laws::{
    by_shape, is_address, law_only_what_changed_is_reported, lemma_leaf, lemma_nodes_same,
};
use crate::session::{applied_from, Applied, SessionModel};
use crate::table::with_entry;
use crate::tree::standing::lemma_visited;
use crate::tree::{NodeId, NodeModel, Tree};
use vstd::prelude::*;

verus! {

/// Whether a node of the model is a question of the answers: the like of an
/// element that holds nothing but its value, whose address reads as it is
/// written.
pub open spec fn is_question(t: Tree, root: NodeId, c: NodeId) -> bool {
    exists|k: int|
        0 <= k < t.visit(root, true).len() && c == place_in_model(k) && is_written_leaf(
            t,
            root,
            #[trigger] t.visit(root, true)[k],
        )
}

pub open spec fn is_written_leaf(t: Tree, root: NodeId, n: NodeId) -> bool {
    &&& t.visit(root, false).contains(n)
    &&& t.children(n).len() == 0
    &&& reads_as_written(t, n)
}

/// Whether every calculated node of a model is a question of the answers.
pub open spec fn all_questions(
    form: FormModel,
    t: Tree,
    root: NodeId,
    inner: Surroundings,
) -> bool {
    forall|i: int, c: NodeId|
        0 <= i < form.rules.bindings.len() && form.rules.bindings[i].calculate is Some
            && #[trigger] nodes_for(form.rules.bindings[i].path, model_of(form, t), inner).contains(
            c,
        ) ==> is_question(t, root, c)
}

/// Whether a node of the model is answered by its address: that leads in the
/// answers to the node it is the like of, which holds nothing but its value.
spec fn is_answered(
    form: FormModel,
    t: Tree,
    root: NodeId,
    c: NodeId,
    env: Surroundings,
) -> bool {
    let path = place_of(model_of(form, t), c);
    &&& is_address(path)
    &&& exists|k: int|
        0 <= k < t.visit(root, true).len() && c == place_in_model(k) && node_at(t, path, env)
            == Some(#[trigger] t.visit(root, true)[k]) && t.children(t.visit(root, true)[k]).len()
            == 0
}

proof fn lemma_question_answered(
    form: FormModel,
    t: Tree,
    root: NodeId,
    c: NodeId,
    env: Surroundings,
)
    requires
        form.wf(),
        t.hangs_together(root),
        t.nodes.len() < EXACT,
        model_size(form, t) <= usize::MAX,
        is_named_apart(form, t, root),
        is_question(t, root, c),
    ensures
        is_answered(form, t, root, c, env),
{
    let v = t.visit(root, true);
    let k = choose|k: int|
        0 <= k < v.len() && c == place_in_model(k) && is_written_leaf(t, root, #[trigger] v[k]);
    let n = v[k];
    assert(t.has(root));
    t.lemma_listed_once(root);
    lemma_visited(t, root, root, n);
    let j = lemma_place_in_model(form, t, root, n);
    assert(v[j] == v[k]);
    assert(j == k);
    law_address_leads_to_its_node(t, root, n, env);
    let steps = steps_to(t, n);
    assert(by_shape(steps)) by {
        assert forall|i: int| 0 <= i < steps.len() implies (#[trigger] steps[i]).axis == Axis::Child
            && forall|j: int|
            0 <= j < steps[i].predicates.len() ==> (
            #[trigger] steps[i].predicates[j]) is Number by {
            assert(steps[i] == step_to(t, line_to(t, n)[i]));
        }
    }
    assert(node_at(t, place_of(model_of(form, t), c), env) == Some(v[k]));
}

/// Values written to nodes, one after another.
spec fn written(m: Tree, writes: Seq<(NodeId, Seq<char>)>) -> Tree
    decreases writes.len(),
{
    if writes.len() == 0 {
        m
    } else {
        written(m, writes.drop_last()).with_value(writes.last().0, writes.last().1)
    }
}

/// Whether work on a model is what it has written, each value at the address
/// of its node.
spec fn is_record(
    w: Working,
    m: Tree,
    writes: Seq<(NodeId, Seq<char>)>,
    form: FormModel,
    t: Tree,
    root: NodeId,
    env: Surroundings,
) -> bool {
    &&& w.tree == written(m, writes)
    &&& w.tree.wf()
    &&& same_shape(m, w.tree)
    &&& writes.len() == w.computed.len()
    &&& forall|i: int|
        0 <= i < writes.len() ==> w.computed[i] == (
            place_of(m, (#[trigger] writes[i]).0),
            writes[i].1,
        ) && is_answered(form, t, root, writes[i].0, env)
}

proof fn lemma_record_at(
    w: Working,
    m: Tree,
    writes: Seq<(NodeId, Seq<char>)>,
    form: FormModel,
    t: Tree,
    root: NodeId,
    env: Surroundings,
    b: BindingModel,
    n: NodeId,
    inner: Surroundings,
) -> (after: Seq<(NodeId, Seq<char>)>)
    requires
        m.wf(),
        is_record(w, m, writes, form, t, root, env),
        m.has(n),
        is_answered(form, t, root, n, env),
    ensures
        is_record(w.calculated_at(b, n, inner), m, after, form, t, root, env),
{
    let next = w.calculated_at(b, n, inner);
    match b.calculate {
        Some(e) => match text_result(eval(e, w.tree, at(n), inner), w.tree) {
            Ok(text) => {
                let after = writes.push((n, text));
                assert(after.drop_last() =~= writes);
                w.tree.lemma_with_value_wf(n, text);
                lemma_address_same(m, w.tree, n);
                assert forall|i: int| 0 <= i < m.nodes.len() implies (
                #[trigger] next.tree.nodes[i]) == (NodeModel {
                    value: next.tree.nodes[i].value,
                    ..m.nodes[i]
                }) by {
                    assert(w.tree.nodes[i] == (NodeModel {
                        value: w.tree.nodes[i].value,
                        ..m.nodes[i]
                    }));
                }
                assert forall|i: int| 0 <= i < after.len() implies next.computed[i] == (
                    place_of(m, (#[trigger] after[i]).0),
                    after[i].1,
                ) && is_answered(form, t, root, after[i].0, env) by {
                    if i < writes.len() {
                        assert(after[i] == writes[i]);
                        assert(next.computed[i] == w.computed[i]);
                    }
                }
                after
            },
            Err(_) => writes,
        },
        None => writes,
    }
}

proof fn lemma_record_nodes(
    w: Working,
    m: Tree,
    writes: Seq<(NodeId, Seq<char>)>,
    form: FormModel,
    t: Tree,
    root: NodeId,
    env: Surroundings,
    b: BindingModel,
    nodes: Seq<NodeId>,
    j: int,
    inner: Surroundings,
) -> (after: Seq<(NodeId, Seq<char>)>)
    requires
        m.wf(),
        is_record(w, m, writes, form, t, root, env),
        0 <= j <= nodes.len(),
        forall|i: int|
            0 <= i < nodes.len() ==> m.has(#[trigger] nodes[i]) && is_answered(
                form,
                t,
                root,
                nodes[i],
                env,
            ),
    ensures
        is_record(w.calculated_nodes(b, nodes, j, inner), m, after, form, t, root, env),
    decreases nodes.len() - j,
{
    if j < nodes.len() {
        assert(m.has(nodes[j]));
        let next = lemma_record_at(w, m, writes, form, t, root, env, b, nodes[j], inner);
        lemma_record_nodes(
            w.calculated_at(b, nodes[j], inner),
            m,
            next,
            form,
            t,
            root,
            env,
            b,
            nodes,
            j + 1,
            inner,
        )
    } else {
        writes
    }
}

/// Whether every calculated node of a model is answered by its address.
spec fn all_answered(
    form: FormModel,
    t: Tree,
    root: NodeId,
    env: Surroundings,
    inner: Surroundings,
) -> bool {
    forall|i: int, c: NodeId|
        0 <= i < form.rules.bindings.len() && form.rules.bindings[i].calculate is Some
            && #[trigger] nodes_for(form.rules.bindings[i].path, model_of(form, t), inner).contains(
            c,
        ) ==> is_answered(form, t, root, c, env)
}

proof fn lemma_record(
    w: Working,
    m: Tree,
    writes: Seq<(NodeId, Seq<char>)>,
    form: FormModel,
    t: Tree,
    root: NodeId,
    env: Surroundings,
    k: int,
    inner: Surroundings,
) -> (after: Seq<(NodeId, Seq<char>)>)
    requires
        form.wf(),
        m == model_of(form, t),
        is_rooted(m, NodeId(0)),
        m.name(NodeId(0)) == MODEL_ROOT@,
        is_record(w, m, writes, form, t, root, env),
        0 <= k <= form.rules.order.len(),
        all_answered(form, t, root, env, inner),
        forall|j: int|
            0 <= j < form.rules.bindings.len() && (
            #[trigger] form.rules.bindings[j]).calculate is Some ==> is_written_out(
                form.rules.bindings[j].path,
                MODEL_ROOT@,
            ),
    ensures
        is_record(
            w.calculated(form.rules.bindings, form.rules.order, k, inner),
            m,
            after,
            form,
            t,
            root,
            env,
        ),
    decreases form.rules.order.len() - k,
{
    let bindings = form.rules.bindings;
    let order = form.rules.order;
    if k < order.len() {
        assert(0 <= order[k] < bindings.len());
        let b = bindings[order[k]];
        let nodes = nodes_for(b.path, w.tree, inner);
        let next = if b.calculate is None {
            lemma_idle(w, b, nodes, 0, inner);
            writes
        } else {
            lemma_bound(m, w.tree, NodeId(0), b.path, inner);
            lemma_nodes_for_in(b.path, m, inner);
            assert forall|i: int| 0 <= i < nodes.len() implies m.has(#[trigger] nodes[i])
                && is_answered(form, t, root, nodes[i], env) by {
                assert(nodes_for(bindings[order[k]].path, m, inner).contains(nodes[i]));
            }
            lemma_record_nodes(w, m, writes, form, t, root, env, b, nodes, 0, inner)
        };
        lemma_record(
            w.calculated_nodes(b, nodes, 0, inner),
            m,
            next,
            form,
            t,
            root,
            env,
            k + 1,
            inner,
        )
    } else {
        writes
    }
}

/// Whether answers are such that their model is what has been written to it.
spec fn is_applied(
    a: Tree,
    writes: Seq<(NodeId, Seq<char>)>,
    form: FormModel,
    t: Tree,
    root: NodeId,
) -> bool {
    &&& a.wf()
    &&& same_shape(t, a)
    &&& a.visit(root, true) == t.visit(root, true)
    &&& model_size(form, a) == model_size(form, t)
    &&& model_of(form, a) == written(model_of(form, t), writes)
}

proof fn lemma_apply(
    a: Applied,
    computed: Seq<(Seq<char>, Seq<char>)>,
    writes: Seq<(NodeId, Seq<char>)>,
    j: int,
    form: FormModel,
    t: Tree,
    root: NodeId,
    env: Surroundings,
)
    requires
        form.wf(),
        t.hangs_together(root),
        model_size(form, t) <= usize::MAX,
        0 <= j <= writes.len(),
        writes.len() == computed.len(),
        is_applied(a.tree, writes.take(j), form, t, root),
        forall|i: int|
            0 <= i < writes.len() ==> computed[i] == (
                place_of(model_of(form, t), (#[trigger] writes[i]).0),
                writes[i].1,
            ) && is_answered(form, t, root, writes[i].0, env),
    ensures
        is_applied(applied_from(a, computed, j, env).tree, writes, form, t, root),
    decreases computed.len() - j,
{
    if j < computed.len() {
        let (path, value) = computed[j];
        let c = writes[j].0;
        assert(is_answered(form, t, root, writes[j].0, env));
        let v = t.visit(root, true);
        let k = choose|k: int|
            0 <= k < v.len() && c == place_in_model(k) && node_at(t, path, env) == Some(
                #[trigger] v[k],
            ) && t.children(v[k]).len() == 0;
        let x = v[k];
        assert(t.has(root));
        t.lemma_listed_once(root);
        t.lemma_visit_in(root, true);
        assert(t.has(v[k]));
        lemma_nodes_same(t, a.tree, path, env);
        assert(a.tree.nodes[x.0 as int].children == t.nodes[x.0 as int].children);
        lemma_leaf(a.tree, x);
        lemma_model_written(form, a.tree, root, k, value);
        let u = a.tree.with_value(x, value);
        a.tree.lemma_with_value_wf(x, value);
        if a.tree.value(x) == value {
            assert(u.nodes =~= a.tree.nodes);
            assert(u == a.tree);
        }
        assert(same_shape(t, u));
        assert(writes.take(j + 1).drop_last() =~= writes.take(j));
        let next = if answer_at(a.tree, path, env) == value {
            a
        } else {
            Applied { tree: u, calculated: with_entry(a.calculated, path, value) }
        };
        assert(next.tree == u);
        lemma_apply(next, computed, writes, j + 1, form, t, root, env);
    } else {
        assert(writes.take(j) =~= writes);
    }
}

/// Whether what is recorded is true of a document: each value is what the
/// calculated node at that address holds.
spec fn is_true_record(
    computed: Seq<(Seq<char>, Seq<char>)>,
    m: Tree,
    bindings: Seq<BindingModel>,
    inner: Surroundings,
) -> bool {
    forall|i: int|
        0 <= i < computed.len() ==> is_true_entry(#[trigger] computed[i], m, bindings, inner)
}

spec fn is_true_entry(
    entry: (Seq<char>, Seq<char>),
    m: Tree,
    bindings: Seq<BindingModel>,
    inner: Surroundings,
) -> bool {
    exists|b: int, c: NodeId|
        0 <= b < bindings.len() && bindings[b].calculate is Some && #[trigger] nodes_for(
            bindings[b].path,
            m,
            inner,
        ).contains(c) && entry == (place_of(m, c), m.value(c))
}

spec fn all_settled(m: Tree, bindings: Seq<BindingModel>, inner: Surroundings) -> bool {
    forall|b: int, c: NodeId|
        0 <= b < bindings.len() && bindings[b].calculate is Some && #[trigger] nodes_for(
            bindings[b].path,
            m,
            inner,
        ).contains(c) ==> m.has(c) && is_settled(bindings[b], c, m, inner)
}

proof fn lemma_again_nodes(
    w: Working,
    bindings: Seq<BindingModel>,
    b: int,
    nodes: Seq<NodeId>,
    j: int,
    inner: Surroundings,
)
    requires
        w.tree.wf(),
        all_settled(w.tree, bindings, inner),
        0 <= b < bindings.len(),
        bindings[b].calculate is Some,
        nodes == nodes_for(bindings[b].path, w.tree, inner),
        0 <= j <= nodes.len(),
        is_true_record(w.computed, w.tree, bindings, inner),
    ensures
        w.calculated_nodes(bindings[b], nodes, j, inner).tree == w.tree,
        is_true_record(
            w.calculated_nodes(bindings[b], nodes, j, inner).computed,
            w.tree,
            bindings,
            inner,
        ),
    decreases nodes.len() - j,
{
    if j < nodes.len() {
        let n = nodes[j];
        assert(nodes.contains(n));
        assert(w.tree.has(n) && is_settled(bindings[b], n, w.tree, inner));
        let next = w.calculated_at(bindings[b], n, inner);
        assert(w.tree.with_value(n, w.tree.value(n)).nodes =~= w.tree.nodes);
        assert(next.tree == w.tree);
        assert forall|i: int| 0 <= i < next.computed.len() implies is_true_entry(
            #[trigger] next.computed[i],
            w.tree,
            bindings,
            inner,
        ) by {
            if i < w.computed.len() {
                assert(next.computed[i] == w.computed[i]);
            } else {
                assert(nodes_for(bindings[b].path, w.tree, inner).contains(n));
                assert(next.computed[i] == (place_of(w.tree, n), w.tree.value(n)));
            }
        }
        lemma_again_nodes(next, bindings, b, nodes, j + 1, inner);
    }
}

/// Run again, calculations that have settled change nothing and come to what
/// is there.
proof fn lemma_again(
    w: Working,
    bindings: Seq<BindingModel>,
    order: Seq<int>,
    k: int,
    inner: Surroundings,
)
    requires
        w.tree.wf(),
        all_settled(w.tree, bindings, inner),
        0 <= k <= order.len(),
        forall|i: int| 0 <= i < order.len() ==> 0 <= #[trigger] order[i] < bindings.len(),
        is_true_record(w.computed, w.tree, bindings, inner),
    ensures
        is_true_record(
            w.calculated(bindings, order, k, inner).computed,
            w.tree,
            bindings,
            inner,
        ),
    decreases order.len() - k,
{
    if k < order.len() {
        let b = order[k];
        let nodes = nodes_for(bindings[b].path, w.tree, inner);
        if bindings[b].calculate is None {
            lemma_idle(w, bindings[b], nodes, 0, inner);
        } else {
            lemma_again_nodes(w, bindings, b, nodes, 0, inner);
        }
        let next = w.calculated_nodes(bindings[b], nodes, 0, inner);
        lemma_again(next, bindings, order, k + 1, inner);
    }
}

/// Whether a form's calculations are such that they settle: each has a path
/// of its own that is written out, and is moved by nothing but what it
/// depends on, by the paths it reads.
pub open spec fn are_settling(form: FormModel, m: Tree, inner: Surroundings) -> bool {
    let bindings = form.rules.bindings;
    &&& ordering(bindings) == Ok::<Seq<int>, Seq<char>>(form.rules.order)
    &&& forall|j: int|
        0 <= j < bindings.len() && (#[trigger] bindings[j]).calculate is Some ==> is_bound_once(
            bindings,
            j,
            MODEL_ROOT@,
        )
    &&& forall|i: int, j: int|
        #![trigger depends(bindings, i, j)]
        0 <= i < bindings.len() && 0 <= j < bindings.len() && bindings[i].calculate is Some
            && bindings[j].calculate is Some && !depends(bindings, i, j) ==> is_kept_by(
            bindings[i],
            bindings[j],
            m,
            NodeId(0),
            inner,
        )
}

/// A second recompute right after a first reports nothing and writes
/// nothing: the calculations have settled, and what they come to is there.
///
/// This is so of calculations that settle in a single pass, where each
/// belongs to a question of the answers and no lookup table is named as the
/// answers are.
pub proof fn law_second_recompute_reports_nothing(s: SessionModel, root: NodeId)
    requires
        s.wf(),
        s.instance.hangs_together(root),
        model_size(s.form, s.instance) <= usize::MAX,
        are_settling(
            s.form,
            model_of(s.form, s.instance),
            form_surroundings(s.form.tables, s.today, s.now),
        ),
        s.instance.nodes.len() < EXACT,
        is_named_apart(s.form, s.instance, root),
        all_questions(
            s.form,
            s.instance,
            root,
            form_surroundings(s.form.tables, s.today, s.now),
        ),
    ensures
        ({
            let after = SessionModel { instance: s.applied().tree, ..s };
            &&& after.outcome().calculated == Seq::<(Seq<char>, Seq<char>)>::empty()
            &&& after.applied().tree == after.instance
        }),
{
    let form = s.form;
    let t = s.instance;
    let env = s.env();
    let inner = form_surroundings(form.tables, s.today, s.now);
    let bindings = form.rules.bindings;
    let m = model_of(form, t);
    lemma_model_rooted(form, t);
    assert forall|i: int, c: NodeId|
        0 <= i < bindings.len() && bindings[i].calculate is Some && #[trigger] nodes_for(
            bindings[i].path,
            m,
            inner,
        ).contains(c) implies is_answered(form, t, root, c, env) by {
        lemma_question_answered(form, t, root, c, env);
    }
    let start = Working { tree: m, computed: Seq::empty(), failed: Seq::empty() };
    let none = Seq::<(NodeId, Seq<char>)>::empty();
    assert(is_record(start, m, none, form, t, root, env));
    assert forall|j: int|
        0 <= j < bindings.len() && (
        #[trigger] bindings[j]).calculate is Some implies is_written_out(
        bindings[j].path,
        MODEL_ROOT@,
    ) by {
        assert(is_bound_once(bindings, j, MODEL_ROOT@));
    }
    let writes = lemma_record(start, m, none, form, t, root, env, 0, inner);
    let w = form_calculations(form, t, s.today, s.now);
    assert(writes.take(0) =~= none);
    let untouched = Applied { tree: t, calculated: Seq::empty() };
    lemma_apply(untouched, w.computed, writes, 0, form, t, root, env);
    let after = SessionModel { instance: s.applied().tree, ..s };
    let u = after.instance;
    assert(model_of(form, u) == w.tree);
    assert forall|b: int, c: NodeId|
        0 <= b < bindings.len() && bindings[b].calculate is Some && #[trigger] nodes_for(
            bindings[b].path,
            w.tree,
            inner,
        ).contains(c) implies w.tree.has(c) && is_settled(bindings[b], c, w.tree, inner) by {
        lemma_bound(m, w.tree, NodeId(0), bindings[b].path, inner);
        lemma_nodes_for_in(bindings[b].path, w.tree, inner);
        law_form_calculations_settle(form, t, s.today, s.now, b, c);
    }
    let again = Working { tree: w.tree, computed: Seq::empty(), failed: Seq::empty() };
    lemma_again(again, bindings, form.rules.order, 0, inner);
    let computed = form_calculations(form, u, s.today, s.now).computed;
    assert forall|i: int| 0 <= i < computed.len() implies after.get((#[trigger] computed[i]).0)
        == computed[i].1 by {
        assert(is_true_entry(computed[i], w.tree, bindings, inner));
        let (b, c) = choose|b: int, c: NodeId|
            0 <= b < bindings.len() && bindings[b].calculate is Some && #[trigger] nodes_for(
                bindings[b].path,
                w.tree,
                inner,
            ).contains(c) && computed[i] == (place_of(w.tree, c), w.tree.value(c));
        lemma_bound(m, w.tree, NodeId(0), bindings[b].path, inner);
        lemma_nodes_for_in(bindings[b].path, m, inner);
        assert(is_answered(form, t, root, c, env));
        lemma_address_same(m, w.tree, c);
        let path = place_of(m, c);
        let v = t.visit(root, true);
        let k = choose|k: int|
            0 <= k < v.len() && c == place_in_model(k) && node_at(t, path, env) == Some(
                #[trigger] v[k],
            ) && t.children(v[k]).len() == 0;
        t.lemma_listed_once(root);
        t.lemma_visit_in(root, true);
        assert(t.has(v[k]));
        lemma_nodes_same(t, u, path, env);
        assert(u.nodes[v[k].0 as int].children == t.nodes[v[k].0 as int].children);
        lemma_leaf(u, v[k]);
        lemma_model_holds(form, u, root, k);
    }
    law_only_what_changed_is_reported(after);
}

} // verus!
