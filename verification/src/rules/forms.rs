//! What a form says, by what its rules say.

use crate::eval::frame::{lemma_address_same, same_shape};
use crate::eval::value::ValueModel;
use crate::eval::{eval, Surroundings};
use crate::functions::laws::{call_of, lemma_call};
use crate::functions::names::lemma_other_names;
use crate::functions::{text_result, Builtin};
use crate::parser::ast::ExprModel;
use crate::rules::binding::{BindingModel, ViolationModel};
use crate::rules::checking::{all_findings, all_leftovers, at, nodes_for, shown};
use crate::rules::form::{
    form_findings, form_leftovers, form_surroundings, model_of, unwrapped, unwrapped_path,
    FormModel,
};
use crate::rules::live::{conditional, form_calculations, marked, marked_nodes, place_of, Working};
use crate::rules::settling::{lemma_model_rooted, lemma_present_part, model_size};
use crate::table::{in_key_order, law_keys_stay_in_order, law_lookup_after_entry, lookup, with_entry};
use crate::text::laws::law_beginnings_and_ends;
use crate::tree::{NodeId, Tree};
use vstd::prelude::*;

verus! {

// ---------------------------------------------------------------------------
// Findings
// ---------------------------------------------------------------------------

/// Whether a path is another one under the root that a check puts around a
/// submission.
pub open spec fn is_under_the_model(long: Seq<char>, path: Seq<char>) -> bool {
    long == "/model"@ + path
}

/// A path that a check writes is the form's own, without the root that the
/// check puts around a submission.
pub proof fn law_paths_are_the_forms_own(long: Seq<char>, path: Seq<char>)
    ensures
        is_under_the_model(long, path) ==> unwrapped_path(long) == path,
        (forall|p: Seq<char>| !(#[trigger] is_under_the_model(long, p))) ==> unwrapped_path(long)
            == long,
{
    let root = "/model"@;
    law_beginnings_and_ends(long, root, path);
    if is_under_the_model(long, path) {
        assert(long.skip(root.len() as int) =~= path);
        law_beginnings_and_ends(root + path, root, path);
    }
    if crate::text::begins_with(long, root) {
        let rest = long.skip(root.len() as int);
        assert(long =~= root + rest);
        assert(is_under_the_model(long, rest));
    }
}

/// What a form finds of a submission is what its rules find of it, together
/// with its tables, at the time of the check, and nothing else.
pub proof fn law_forms_find_what_their_rules_find(
    form: FormModel,
    t: Tree,
    today: Seq<char>,
    now: Seq<char>,
    v: ViolationModel,
)
    ensures
        ({
            let env = form_surroundings(form.tables, today, now);
            let all = all_findings(form.rules.bindings, form.rules.order, model_of(form, t), env);
            let left = all_leftovers(
                form.rules.bindings,
                form.rules.order,
                model_of(form, t),
                env,
            );
            &&& form_findings(form, t, today, now).len() == all.len()
            &&& form_findings(form, t, today, now).contains(v) <==> exists|i: int|
                0 <= i < all.len() && is_told_as(#[trigger] all[i], v)
            &&& form_leftovers(form, t, today, now).contains(v) <==> exists|i: int|
                0 <= i < left.len() && is_told_as(#[trigger] left[i], v)
        }),
{
    let env = form_surroundings(form.tables, today, now);
    let m = model_of(form, t);
    lemma_unwrapped(all_findings(form.rules.bindings, form.rules.order, m, env), v);
    lemma_unwrapped(all_leftovers(form.rules.bindings, form.rules.order, m, env), v);
}

/// Whether a finding is another one under the form's own path.
pub open spec fn is_told_as(found: ViolationModel, v: ViolationModel) -> bool {
    &&& v.kind == found.kind
    &&& v.message == found.message
    &&& v.path == found.path
    &&& v.node_path == unwrapped_path(found.node_path)
}

proof fn lemma_unwrapped(s: Seq<ViolationModel>, v: ViolationModel)
    ensures
        unwrapped(s).contains(v) <==> exists|i: int|
            0 <= i < s.len() && is_told_as(#[trigger] s[i], v),
{
    let r = unwrapped(s);
    if r.contains(v) {
        let i = choose|i: int| 0 <= i < r.len() && r[i] == v;
        assert(is_told_as(s[i], v));
    }
    if exists|i: int| 0 <= i < s.len() && is_told_as(#[trigger] s[i], v) {
        let i = choose|i: int| 0 <= i < s.len() && is_told_as(#[trigger] s[i], v);
        assert(r[i] == v);
    }
}

/// In a form's rules `today()` and `now()` are the day and the time that the
/// form is checked at.
pub proof fn law_forms_know_the_time(
    form: FormModel,
    t: Tree,
    here: crate::eval::Here,
    today: Seq<char>,
    now: Seq<char>,
)
    ensures
        ({
            let env = form_surroundings(form.tables, today, now);
            &&& call_of("today"@, Seq::empty(), t, here, env) == Ok::<ValueModel, Seq<char>>(
                ValueModel::String(today),
            )
            &&& call_of("now"@, Seq::empty(), t, here, env) == Ok::<ValueModel, Seq<char>>(
                ValueModel::String(now),
            )
        }),
{
    let env = form_surroundings(form.tables, today, now);
    lemma_other_names();
    let none = Seq::<ExprModel>::empty();
    lemma_call(Builtin::Today, "today"@, none, t, here, env);
    lemma_call(Builtin::Now, "now"@, none, t, here, env);
}

// ---------------------------------------------------------------------------
// Relevance
// ---------------------------------------------------------------------------

/// Whether a mark at an address says of a node there whether it is asked.
#[verifier::opaque]
pub open spec fn is_mark_of(
    bindings: Seq<BindingModel>,
    t: Tree,
    env: Surroundings,
    key: Seq<char>,
    asked: bool,
    n: NodeId,
) -> bool {
    place_of(t, n) == key && asked == shown(bindings, t, n, env)
}

/// Whether the mark at an address, where there is one, says what is so of a
/// node at that address.
pub open spec fn is_marked_rightly(
    bindings: Seq<BindingModel>,
    t: Tree,
    env: Surroundings,
    found: Seq<(Seq<char>, bool)>,
    key: Seq<char>,
) -> bool {
    lookup(found, key) is Some ==> exists|n: NodeId|
        is_mark_of(bindings, t, env, key, lookup(found, key)->0, n)
}

proof fn lemma_mark_made(
    bindings: Seq<BindingModel>,
    n: NodeId,
    t: Tree,
    env: Surroundings,
)
    ensures
        is_mark_of(bindings, t, env, place_of(t, n), shown(bindings, t, n, env), n),
{
    reveal(is_mark_of);
}

proof fn lemma_mark_put(
    bindings: Seq<BindingModel>,
    n: NodeId,
    place: Seq<char>,
    asked: bool,
    t: Tree,
    env: Surroundings,
    found: Seq<(Seq<char>, bool)>,
    key: Seq<char>,
)
    requires
        in_key_order(found),
        is_marked_rightly(bindings, t, env, found, key),
        is_mark_of(bindings, t, env, place, asked, n),
    ensures
        in_key_order(with_entry(found, place, asked)),
        is_marked_rightly(bindings, t, env, with_entry(found, place, asked), key),
{
    law_keys_stay_in_order(found, place, asked);
    law_lookup_after_entry(found, place, asked, key);
    let after = with_entry(found, place, asked);
    if place == key {
        assert(lookup(after, key) == Some(asked));
        assert(is_mark_of(bindings, t, env, key, lookup(after, key)->0, n));
    } else {
        assert(lookup(after, key) == lookup(found, key));
        if let Some(b) = lookup(found, key) {
            let m = choose|m: NodeId| is_mark_of(bindings, t, env, key, b, m);
            assert(is_mark_of(bindings, t, env, key, lookup(after, key)->0, m));
        }
    }
}

proof fn lemma_marked_nodes(
    bindings: Seq<BindingModel>,
    nodes: Seq<NodeId>,
    j: int,
    t: Tree,
    env: Surroundings,
    found: Seq<(Seq<char>, bool)>,
    key: Seq<char>,
)
    requires
        0 <= j <= nodes.len(),
        in_key_order(found),
        is_marked_rightly(bindings, t, env, found, key),
    ensures
        in_key_order(marked_nodes(bindings, nodes, j, t, env, found)),
        is_marked_rightly(
            bindings,
            t,
            env,
            marked_nodes(bindings, nodes, j, t, env, found),
            key,
        ),
    decreases nodes.len() - j,
{
    if j < nodes.len() {
        let next = with_entry(found, place_of(t, nodes[j]), shown(bindings, t, nodes[j], env));
        lemma_mark_made(bindings, nodes[j], t, env);
        lemma_mark_put(
            bindings,
            nodes[j],
            place_of(t, nodes[j]),
            shown(bindings, t, nodes[j], env),
            t,
            env,
            found,
            key,
        );
        lemma_marked_nodes(bindings, nodes, j + 1, t, env, next, key);
    }
}

proof fn lemma_marks(
    bindings: Seq<BindingModel>,
    k: int,
    t: Tree,
    env: Surroundings,
    found: Seq<(Seq<char>, bool)>,
    key: Seq<char>,
)
    requires
        0 <= k <= bindings.len(),
        in_key_order(found),
        is_marked_rightly(bindings, t, env, found, key),
    ensures
        is_marked_rightly(bindings, t, env, marked(bindings, k, t, env, found), key),
    decreases bindings.len() - k,
{
    if k < bindings.len() {
        let nodes = conditional(bindings[k], t, env);
        let next = marked_nodes(bindings, nodes, 0, t, env, found);
        lemma_marked_nodes(bindings, nodes, 0, t, env, found, key);
        lemma_marks(bindings, k + 1, t, env, next, key);
    }
}

/// What is marked as asked, or as not asked, at an address is so of a node
/// at that address.
pub proof fn law_marks_say_what_is_asked(
    bindings: Seq<BindingModel>,
    t: Tree,
    env: Surroundings,
    key: Seq<char>,
)
    ensures
        is_marked_rightly(bindings, t, env, marked(bindings, 0, t, env, Seq::empty()), key),
{
    let none = Seq::<(Seq<char>, bool)>::empty();
    assert(lookup(none, key) is None);
    lemma_marks(bindings, 0, t, env, none, key);
}

// ---------------------------------------------------------------------------
// Calculations
// ---------------------------------------------------------------------------

/// Whether what calculations changed, from one point to a later one, is
/// among what they report by then.
pub open spec fn is_accounted_for(w: Working, after: Working) -> bool {
    &&& w.computed.len() <= after.computed.len()
    &&& after.computed.take(w.computed.len() as int) == w.computed
    &&& same_shape(w.tree, after.tree)
    &&& after.tree.wf()
    &&& forall|n: NodeId| #[trigger]
        w.tree.has(n) && after.tree.value(n) != w.tree.value(n) ==> is_reported(w, after, n)
}

/// Whether what a node holds is reported at its address.
pub open spec fn is_reported(w: Working, after: Working, n: NodeId) -> bool {
    exists|i: int|
        w.computed.len() <= i < after.computed.len() && #[trigger] after.computed[i] == (
            place_of(w.tree, n),
            after.tree.value(n),
        )
}

proof fn lemma_accounted_on(w: Working, mid: Working, after: Working)
    requires
        w.tree.wf(),
        is_accounted_for(w, mid),
        is_accounted_for(mid, after),
    ensures
        is_accounted_for(w, after),
{
    let (a, b, c) = (w.computed, mid.computed, after.computed);
    assert(c.take(a.len() as int) =~= c.take(b.len() as int).take(a.len() as int));
    assert forall|i: int| 0 <= i < w.tree.nodes.len() implies (#[trigger] after.tree.nodes[i]) == (
    crate::tree::NodeModel { value: after.tree.nodes[i].value, ..w.tree.nodes[i] }) by {
        assert(mid.tree.nodes[i] == (crate::tree::NodeModel {
            value: mid.tree.nodes[i].value,
            ..w.tree.nodes[i]
        }));
    }
    assert forall|n: NodeId| #[trigger]
        w.tree.has(n) && after.tree.value(n) != w.tree.value(n) implies is_reported(
        w,
        after,
        n,
    ) by {
        assert(mid.tree.has(n));
        lemma_address_same(w.tree, mid.tree, n);
        if after.tree.value(n) != mid.tree.value(n) {
            assert(is_reported(mid, after, n));
            let i = choose|i: int|
                b.len() <= i < c.len() && #[trigger] c[i] == (
                    place_of(mid.tree, n),
                    after.tree.value(n),
                );
            assert(c[i] == (place_of(w.tree, n), after.tree.value(n)));
        } else {
            assert(is_reported(w, mid, n));
            let i = choose|i: int|
                a.len() <= i < b.len() && #[trigger] b[i] == (
                    place_of(w.tree, n),
                    mid.tree.value(n),
                );
            assert(c.take(b.len() as int)[i] == b[i]);
            assert(c[i] == (place_of(w.tree, n), after.tree.value(n)));
        }
    }
}

proof fn lemma_accounted_at(w: Working, b: BindingModel, m: NodeId, env: Surroundings)
    requires
        w.tree.wf(),
        w.tree.has(m),
    ensures
        is_accounted_for(w, w.calculated_at(b, m, env)),
{
    let after = w.calculated_at(b, m, env);
    assert(w.computed.take(w.computed.len() as int) =~= w.computed);
    assert forall|i: int| 0 <= i < w.tree.nodes.len() implies (#[trigger] w.tree.nodes[i]) == (
    crate::tree::NodeModel { value: w.tree.nodes[i].value, ..w.tree.nodes[i] }) by {}
    if let Some(e) = b.calculate {
        if let Ok(text) = text_result(eval(e, w.tree, at(m), env), w.tree) {
            w.tree.lemma_with_value_wf(m, text);
            assert(after.computed.take(w.computed.len() as int) =~= w.computed);
            assert forall|n: NodeId| #[trigger]
                w.tree.has(n) && after.tree.value(n) != w.tree.value(n) implies is_reported(
                w,
                after,
                n,
            ) by {
                if n != m {
                    assert(after.tree.nodes[n.0 as int] == w.tree.nodes[n.0 as int]);
                }
                let i = w.computed.len() as int;
                assert(after.computed[i] == (place_of(w.tree, n), after.tree.value(n)));
            }
        }
    }
}

proof fn lemma_accounted_nodes(
    w: Working,
    b: BindingModel,
    nodes: Seq<NodeId>,
    j: int,
    env: Surroundings,
)
    requires
        w.tree.wf(),
        w.tree.all_in(nodes),
        0 <= j <= nodes.len(),
    ensures
        is_accounted_for(w, w.calculated_nodes(b, nodes, j, env)),
    decreases nodes.len() - j,
{
    if j < nodes.len() {
        assert(w.tree.has(nodes[j]));
        let mid = w.calculated_at(b, nodes[j], env);
        lemma_accounted_at(w, b, nodes[j], env);
        assert(mid.tree.all_in(nodes)) by {
            assert forall|i: int| 0 <= i < nodes.len() implies mid.tree.has(#[trigger] nodes[i]) by {
                assert(w.tree.has(nodes[i]));
            }
        }
        lemma_accounted_nodes(mid, b, nodes, j + 1, env);
        lemma_accounted_on(w, mid, w.calculated_nodes(b, nodes, j, env));
    } else {
        lemma_accounted_still(w);
    }
}

proof fn lemma_accounted_still(w: Working)
    requires
        w.tree.wf(),
    ensures
        is_accounted_for(w, w),
{
    assert(w.computed.take(w.computed.len() as int) =~= w.computed);
    assert forall|i: int| 0 <= i < w.tree.nodes.len() implies (#[trigger] w.tree.nodes[i]) == (
    crate::tree::NodeModel { value: w.tree.nodes[i].value, ..w.tree.nodes[i] }) by {}
}

proof fn lemma_accounted(
    w: Working,
    bindings: Seq<BindingModel>,
    order: Seq<int>,
    k: int,
    env: Surroundings,
)
    requires
        w.tree.wf(),
        0 <= k <= order.len(),
    ensures
        is_accounted_for(w, w.calculated(bindings, order, k, env)),
    decreases order.len() - k,
{
    if k < order.len() {
        let b = bindings[order[k]];
        let nodes = nodes_for(b.path, w.tree, env);
        assert forall|i: int| 0 <= i < nodes.len() implies w.tree.has(#[trigger] nodes[i]) by {
            lemma_bound_in(b.path, w.tree, env, nodes[i]);
        }
        let mid = w.calculated_nodes(b, nodes, 0, env);
        lemma_accounted_nodes(w, b, nodes, 0, env);
        lemma_accounted(mid, bindings, order, k + 1, env);
        lemma_accounted_on(w, mid, w.calculated(bindings, order, k, env));
    } else {
        lemma_accounted_still(w);
    }
}

proof fn lemma_bound_in(path: Seq<char>, t: Tree, env: Surroundings, n: NodeId)
    requires
        nodes_for(path, t, env).contains(n),
    ensures
        t.has(n),
{
    if let (Ok(e), Some(root)) = (crate::parser::grammar::parse_model(path), t.root) {
        if let Ok(ValueModel::NodeSet(nodes)) = eval(e, t, at(root), env) {
            lemma_present_part(t, nodes, n);
        }
    }
}

/// Every value that a form's calculations change is among those they report,
/// at the address of its node as the form writes it.
pub proof fn law_changes_are_reported(
    form: FormModel,
    t: Tree,
    today: Seq<char>,
    now: Seq<char>,
    n: NodeId,
)
    requires
        form.wf(),
        t.wf(),
        model_size(form, t) <= usize::MAX,
        model_of(form, t).has(n),
        form_calculations(form, t, today, now).tree.value(n) != model_of(form, t).value(n),
    ensures
        form_calculations(form, t, today, now).computed.contains(
            (
                place_of(model_of(form, t), n),
                form_calculations(form, t, today, now).tree.value(n),
            ),
        ),
{
    lemma_model_rooted(form, t);
    let env = form_surroundings(form.tables, today, now);
    let w = Working { tree: model_of(form, t), computed: Seq::empty(), failed: Seq::empty() };
    let after = form_calculations(form, t, today, now);
    lemma_accounted(w, form.rules.bindings, form.rules.order, 0, env);
    assert(w.tree.has(n));
    assert(is_reported(w, after, n));
    let i = choose|i: int|
        w.computed.len() <= i < after.computed.len() && #[trigger] after.computed[i] == (
            place_of(w.tree, n),
            after.tree.value(n),
        );
    assert(after.computed[i] == (place_of(w.tree, n), after.tree.value(n)));
}

} // verus!
