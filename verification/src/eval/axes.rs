//! Where axes lead in a document, and in what order nodes come.

use crate::eval::nodes::{
    axis_nodes, beyond, candidates, deduplicated, law_node_sets_in_document_order, named_from,
    position_from, siblings, sorted_unique,
};
use crate::eval::predicates::{is_part_of, law_predicates_choose, stands_at};
use crate::eval::value::ValueModel;
use crate::eval::{eval, filtered, names_root, results, stepped, walked, Here, Surroundings};
use crate::functions::{called, Evaluated};
use crate::parser::ast::{Axis, ExprModel, StepModel, TestModel};
use crate::tree::{NodeId, Tree};
use vstd::prelude::*;

verus! {

/// In a document that was read no two nodes have one place.
proof fn lemma_deduplicated_ascends(t: Tree, s: Seq<NodeId>)
    requires
        t.as_read(),
        t.all_in(s),
        t.in_order(s),
    ensures
        t.ascends(deduplicated(s)),
        t.all_in(deduplicated(s)),
        forall|i: int|
            0 <= i < deduplicated(s).len() ==> t.document_order(#[trigger] deduplicated(s)[i])
                <= t.document_order(s.last()),
        s.len() > 0 ==> deduplicated(s).len() > 0,
    decreases s.len(),
{
    let r = deduplicated(s);
    if s.len() > 1 {
        let d = s.drop_last();
        assert forall|i: int, j: int| 0 <= i < j < d.len() implies t.document_order(
            #[trigger] d[i],
        ) <= t.document_order(#[trigger] d[j]) by {
            assert(d[i] == s[i] && d[j] == s[j]);
        }
        assert forall|i: int| 0 <= i < d.len() implies t.has(#[trigger] d[i]) by {
            assert(t.has(s[i]));
        }
        lemma_deduplicated_ascends(t, d);
        let p = deduplicated(d);
        let near = s[s.len() - 2];
        assert(d.last() == near);
        assert(t.document_order(near) <= t.document_order(s[s.len() - 1]));
        assert(t.has(s[s.len() - 1]) && t.has(near));
        if s.last() != near {
            assert(t.document_order(near) == near.0);
            assert(t.document_order(s.last()) == s.last().0);
            assert forall|i: int, j: int| 0 <= i < j < r.len() implies t.document_order(
                #[trigger] r[i],
            ) < t.document_order(#[trigger] r[j]) by {
                assert(r[i] == p[i]);
                if j < p.len() {
                    assert(r[j] == p[j]);
                }
            }
            assert forall|i: int| 0 <= i < r.len() implies t.has(#[trigger] r[i])
                && t.document_order(r[i]) <= t.document_order(s.last()) by {
                if i < p.len() {
                    assert(r[i] == p[i]);
                }
            }
        }
    } else if s.len() == 1 {
        assert(s[0] == s.last());
    }
}

/// What a step or a union comes to stands in document order, each node once.
proof fn lemma_unique_ascends(t: Tree, s: Seq<NodeId>)
    requires
        t.as_read(),
        t.all_in(s),
    ensures
        t.ascends(sorted_unique(t, s)),
        t.all_in(sorted_unique(t, s)),
        forall|n: NodeId| #[trigger] sorted_unique(t, s).contains(n) <==> s.contains(n),
{
    t.law_sorted_in_document_order(s);
    let r = t.sorted(s);
    assert forall|i: int| 0 <= i < r.len() implies t.has(#[trigger] r[i]) by {
        assert(r.contains(r[i]));
        let k = choose|k: int| 0 <= k < s.len() && s[k] == r[i];
        assert(t.has(s[k]));
    }
    lemma_deduplicated_ascends(t, r);
    law_node_sets_in_document_order(t, s);
}

// ---------------------------------------------------------------------------
// The axes that divide a document
// ---------------------------------------------------------------------------

proof fn lemma_beyond(t: Tree, s: Seq<NodeId>, n: NodeId, following: bool, x: NodeId)
    ensures
        beyond(t, s, n, following).contains(x) <==> s.contains(x) && (if following {
            t.document_order(x) > t.document_order(n) && !t.descendants(n).contains(x)
        } else {
            t.document_order(x) < t.document_order(n) && !t.ancestors(n).contains(x)
        }),
    decreases s.len(),
{
    if s.len() > 0 {
        let d = s.drop_last();
        lemma_beyond(t, d, n, following, x);
        let rest = beyond(t, d, n, following);
        let all = beyond(t, s, n, following);
        assert(s.contains(x) <==> d.contains(x) || x == s.last()) by {
            if s.contains(x) {
                let k = choose|k: int| 0 <= k < s.len() && s[k] == x;
                if k < d.len() {
                    assert(d[k] == x);
                }
            }
            if d.contains(x) {
                let k = choose|k: int| 0 <= k < d.len() && d[k] == x;
                assert(s[k] == x);
            }
            assert(s[s.len() - 1] == s.last());
        }
        if all.len() > rest.len() {
            assert(all == rest.push(s.last()));
            if rest.contains(x) {
                let k = choose|k: int| 0 <= k < rest.len() && rest[k] == x;
                assert(all[k] == x);
            }
            assert(all[rest.len() as int] == s.last());
            if all.contains(x) {
                let k = choose|k: int| 0 <= k < all.len() && all[k] == x;
                if k < rest.len() {
                    assert(rest[k] == x);
                }
            }
        }
    }
}

proof fn lemma_any(t: Tree, s: Seq<NodeId>, i: int)
    requires
        0 <= i <= s.len(),
    ensures
        named_from(t, s, TestModel::Any, i) == Ok::<Seq<NodeId>, Seq<char>>(s.skip(i)),
    decreases s.len() - i,
{
    if i < s.len() {
        lemma_any(t, s, i + 1);
        assert(seq![s[i]] + s.skip(i + 1) =~= s.skip(i));
    } else {
        assert(s.skip(i) =~= Seq::<NodeId>::empty());
    }
}

/// A step along an axis that takes whatever is there.
pub open spec fn whole_step(axis: Axis) -> StepModel {
    StepModel { axis, test: TestModel::Any, predicates: Seq::empty() }
}

/// Where an axis leads from a node.
pub open spec fn along(t: Tree, n: NodeId, axis: Axis, env: Surroundings) -> Result<
    Seq<NodeId>,
    Seq<char>,
> {
    walked(seq![n], seq![whole_step(axis)], 0, t, env)
}

pub proof fn lemma_along(t: Tree, n: NodeId, axis: Axis, env: Surroundings)
    requires
        t.has(n),
    ensures
        along(t, n, axis, env) == Ok::<Seq<NodeId>, Seq<char>>(
            sorted_unique(t, axis_nodes(t, n, axis)),
        ),
{
    let nodes = seq![n];
    let step = whole_step(axis);
    let steps = seq![step];
    assert(steps[0] == step && nodes[0] == n);
    let all = axis_nodes(t, n, axis);
    assert(candidates(t, n, axis) == Ok::<Seq<NodeId>, Seq<char>>(all));
    lemma_any(t, all, 0);
    assert(all.skip(0) =~= all);
    assert(all + Seq::<NodeId>::empty() =~= all);
    reveal_with_fuel(stepped, 2);
    reveal_with_fuel(walked, 2);
    assert(stepped(nodes, step, 0, t, env) == Ok::<Seq<NodeId>, Seq<char>>(all));
}

/// Whether an axis is one of those that divide a document.
pub open spec fn is_dividing(axis: Axis) -> bool {
    axis == Axis::Ancestor || axis == Axis::Preceding || axis == Axis::Self_ || axis
        == Axis::Descendant || axis == Axis::Following
}

/// Whether an axis leads from one node to another.
pub open spec fn leads(t: Tree, n: NodeId, axis: Axis, x: NodeId, env: Surroundings) -> bool {
    along(t, n, axis, env) matches Ok(r) && r.contains(x)
}

/// The five axes that divide a document: from any element, each element is
/// on just one of them.
pub open spec fn on_one_axis(t: Tree, n: NodeId, x: NodeId, env: Surroundings) -> bool {
    let a = leads(t, n, Axis::Ancestor, x, env);
    let p = leads(t, n, Axis::Preceding, x, env);
    let s = leads(t, n, Axis::Self_, x, env);
    let d = leads(t, n, Axis::Descendant, x, env);
    let f = leads(t, n, Axis::Following, x, env);
    &&& a || p || s || d || f
    &&& a ==> !p && !s && !d && !f
    &&& p ==> !s && !d && !f
    &&& s ==> !d && !f
    &&& d ==> !f
}

/// `ancestor`, `preceding`, `self`, `descendant` and `following` divide the
/// elements of a document among them, whichever element they start from.
/// Each leads to elements alone, in document order and to none twice; what
/// precedes stands before, and what follows after.
pub proof fn law_axes_divide_the_document(t: Tree, n: NodeId, env: Surroundings)
    requires
        t.as_read(),
        t.is_element(n),
    ensures
        forall|x: NodeId| t.is_element(x) ==> #[trigger] on_one_axis(t, n, x, env),
        forall|axis: Axis, x: NodeId|
            is_dividing(axis) && #[trigger] leads(t, n, axis, x, env) ==> t.is_element(x),
        forall|axis: Axis| #[trigger]
            is_dividing(axis) ==> (along(t, n, axis, env) matches Ok(r) && t.ascends(r)),
        forall|x: NodeId| #[trigger]
            leads(t, n, Axis::Preceding, x, env) ==> t.document_order(x) < t.document_order(n),
        forall|x: NodeId| #[trigger]
            leads(t, n, Axis::Following, x, env) ==> t.document_order(x) > t.document_order(n),
{
    assert forall|axis: Axis, x: NodeId| is_dividing(axis) implies (#[trigger] leads(
        t,
        n,
        axis,
        x,
        env,
    ) <==> is_led_to(t, n, axis, x)) by {
        lemma_leads(t, n, axis, x, env);
    }
    assert forall|axis: Axis| #[trigger] is_dividing(axis) implies (along(
        t,
        n,
        axis,
        env,
    ) matches Ok(r) && t.ascends(r)) by {
        lemma_along(t, n, axis, env);
        lemma_dividing_in(t, n, axis);
        lemma_unique_ascends(t, axis_nodes(t, n, axis));
    }
    t.law_descendants_are_below(n);
    assert forall|x: NodeId| t.ancestors(n).contains(x) implies t.is_element(x) && x.0 < n.0 by {
        t.lemma_ancestors_before(n, x);
    }
    assert forall|x: NodeId| t.is_element(x) implies #[trigger] on_one_axis(t, n, x, env) by {
        assert(t.document_order(x) == x.0 && t.document_order(n) == n.0);
        assert(leads(t, n, Axis::Ancestor, x, env) <==> is_led_to(t, n, Axis::Ancestor, x));
        assert(leads(t, n, Axis::Preceding, x, env) <==> is_led_to(t, n, Axis::Preceding, x));
        assert(leads(t, n, Axis::Self_, x, env) <==> is_led_to(t, n, Axis::Self_, x));
        assert(leads(t, n, Axis::Descendant, x, env) <==> is_led_to(t, n, Axis::Descendant, x));
        assert(leads(t, n, Axis::Following, x, env) <==> is_led_to(t, n, Axis::Following, x));
    }
}

/// Where a dividing axis leads, by what is above and below.
spec fn is_led_to(t: Tree, n: NodeId, axis: Axis, x: NodeId) -> bool {
    match axis {
        Axis::Ancestor => t.ancestors(n).contains(x),
        Axis::Self_ => x == n,
        Axis::Descendant => t.descendants(n).contains(x),
        Axis::Following => t.is_element(x) && t.document_order(x) > t.document_order(n)
            && !t.descendants(n).contains(x),
        _ => t.is_element(x) && t.document_order(x) < t.document_order(n)
            && !t.ancestors(n).contains(x),
    }
}

/// The elements of a document are its root and what is below it.
pub proof fn lemma_elements(t: Tree, x: NodeId)
    requires
        t.as_read(),
    ensures
        (seq![NodeId(0)] + t.descendants(NodeId(0))).contains(x) <==> t.is_element(x),
{
    let root = NodeId(0);
    let below = t.descendants(root);
    let all = seq![root] + below;
    t.law_descendants_are_below(root);
    let ends = choose|ends: Seq<int>| #[trigger] t.is_layout(ends);
    assert(t.is_element(root));
    if all.contains(x) {
        let k = choose|k: int| 0 <= k < all.len() && all[k] == x;
        if k > 0 {
            assert(below[k - 1] == x);
            assert(below.contains(x));
        }
    }
    if t.is_element(x) {
        if x == root {
            assert(all[0] == x);
        } else {
            t.lemma_root_above(x);
            assert(below.contains(x));
            let k = choose|k: int| 0 <= k < below.len() && below[k] == x;
            assert(all[k + 1] == x);
        }
    }
}

/// A dividing axis leads to nodes of the document.
proof fn lemma_dividing_in(t: Tree, n: NodeId, axis: Axis)
    requires
        t.as_read(),
        t.is_element(n),
        is_dividing(axis),
    ensures
        t.all_in(axis_nodes(t, n, axis)),
{
    let s = axis_nodes(t, n, axis);
    t.lemma_ancestors_in(n);
    t.lemma_descendants_in(n);
    assert forall|i: int| 0 <= i < s.len() implies t.has(#[trigger] s[i]) by {
        assert(s.contains(s[i]));
        if axis == Axis::Following || axis == Axis::Preceding {
            let document = seq![NodeId(0)] + t.descendants(NodeId(0));
            lemma_beyond(t, document, n, axis == Axis::Following, s[i]);
            lemma_elements(t, s[i]);
        }
    }
}

proof fn lemma_leads(t: Tree, n: NodeId, axis: Axis, x: NodeId, env: Surroundings)
    requires
        t.as_read(),
        t.is_element(n),
        is_dividing(axis),
    ensures
        leads(t, n, axis, x, env) <==> is_led_to(t, n, axis, x),
{
    let s = axis_nodes(t, n, axis);
    lemma_along(t, n, axis, env);
    lemma_dividing_in(t, n, axis);
    lemma_unique_ascends(t, s);
    assert(leads(t, n, axis, x, env) <==> s.contains(x));
    if axis == Axis::Following || axis == Axis::Preceding {
        let document = seq![NodeId(0)] + t.descendants(NodeId(0));
        lemma_beyond(t, document, n, axis == Axis::Following, x);
        lemma_elements(t, x);
    } else if axis == Axis::Self_ {
        assert(seq![n][0] == n);
    }
}

// ---------------------------------------------------------------------------
// The order of what is found
// ---------------------------------------------------------------------------

/// Whether what an expression finds is of the document it is evaluated in:
/// whether it takes none of its nodes from a lookup table.
pub open spec fn stays_inside(e: ExprModel) -> bool
    decreases e,
{
    match e {
        ExprModel::Union(left, right) => stays_inside(*left) && stays_inside(*right),
        ExprModel::Filter { base, predicates, steps } => stays_inside(*base) && !(*base matches
            ExprModel::Function { name, args } && name == "instance"@),
        ExprModel::Function { name, args } => forall|i: int|
            0 <= i < args.len() ==> stays_inside(#[trigger] args[i]),
        _ => true,
    }
}

/// What holds of every node-set: its nodes are of the document, each once
/// and in document order.
pub open spec fn is_node_set(t: Tree, s: Seq<NodeId>) -> bool {
    t.all_in(s) && t.ascends(s)
}

proof fn lemma_part_ascends(t: Tree, a: Seq<NodeId>, b: Seq<NodeId>)
    requires
        is_node_set(t, b),
        is_part_of(a, b),
    ensures
        is_node_set(t, a),
{
    let at = choose|at: Seq<int>| stands_at(a, b, at);
    assert forall|i: int| 0 <= i < a.len() implies t.has(#[trigger] a[i]) by {
        assert(0 <= at[i] < b.len() && a[i] == b[at[i]]);
        assert(t.has(b[at[i]]));
    }
    assert forall|i: int, j: int| 0 <= i < j < a.len() implies t.document_order(#[trigger] a[i])
        < t.document_order(#[trigger] a[j]) by {
        assert(at[i] < at[j]);
        assert(a[i] == b[at[i]] && a[j] == b[at[j]]);
    }
}

/// What is left of nodes of the document is of the document.
proof fn lemma_part_in(t: Tree, a: Seq<NodeId>, b: Seq<NodeId>)
    requires
        t.all_in(b),
        is_part_of(a, b),
    ensures
        t.all_in(a),
{
    let at = choose|at: Seq<int>| stands_at(a, b, at);
    assert forall|i: int| 0 <= i < a.len() implies t.has(#[trigger] a[i]) by {
        assert(0 <= at[i] < b.len() && a[i] == b[at[i]]);
        assert(t.has(b[at[i]]));
    }
}

proof fn lemma_position_from(s: Seq<NodeId>, n: NodeId, i: int)
    requires
        0 <= i,
    ensures
        position_from(s, n, i) matches Some(k) ==> i <= k < s.len(),
    decreases s.len() - i,
{
    if i < s.len() {
        lemma_position_from(s, n, i + 1);
    }
}

/// An axis leads from a node of the document to nodes of the document.
proof fn lemma_axis_in(t: Tree, n: NodeId, axis: Axis)
    requires
        t.wf(),
        t.has(n),
    ensures
        t.all_in(axis_nodes(t, n, axis)),
{
    t.lemma_children_in(n);
    t.lemma_ancestors_in(n);
    t.lemma_descendants_in(n);
    t.lemma_parent(n);
    let root = match t.root {
        Some(root) => root,
        None => n,
    };
    t.lemma_descendants_in(root);
    let document = seq![root] + t.descendants(root);
    t.lemma_all_in_add(seq![root], t.descendants(root));
    t.lemma_all_in_add(seq![n], t.descendants(n));
    t.lemma_all_in_add(seq![n], t.ancestors(n));
    match axis {
        Axis::FollowingSibling | Axis::PrecedingSibling => {
            if let Some(p) = t.parent(n) {
                t.lemma_children_in(p);
                let all = t.children(p);
                lemma_position_from(all, n, 0);
                let r = siblings(t, n, axis == Axis::FollowingSibling);
                let at = match position_from(all, n, 0) {
                    Some(i) => i,
                    None => 0,
                };
                assert forall|i: int| 0 <= i < r.len() implies t.has(#[trigger] r[i]) by {
                    if axis == Axis::FollowingSibling {
                        assert(r[i] == all[at + 1 + i]);
                        assert(t.has(all[at + 1 + i]));
                    } else {
                        assert(r[i] == all[i]);
                        assert(t.has(all[i]));
                    }
                }
            }
        },
        Axis::Following | Axis::Preceding => {
            let r = beyond(t, document, n, axis == Axis::Following);
            assert forall|i: int| 0 <= i < r.len() implies t.has(#[trigger] r[i]) by {
                assert(r.contains(r[i]));
                lemma_beyond(t, document, n, axis == Axis::Following, r[i]);
                let k = choose|k: int| 0 <= k < document.len() && document[k] == r[i];
                assert(t.has(document[k]));
            }
        },
        _ => {},
    }
}

proof fn lemma_named_in(t: Tree, s: Seq<NodeId>, test: TestModel, i: int)
    requires
        t.all_in(s),
        0 <= i,
    ensures
        named_from(t, s, test, i) matches Ok(r) ==> t.all_in(r),
    decreases s.len() - i,
{
    if i < s.len() {
        lemma_named_in(t, s, test, i + 1);
        assert(t.has(s[i]));
        if let Ok(rest) = named_from(t, s, test, i + 1) {
            t.lemma_all_in_add(seq![s[i]], rest);
        }
    }
}

proof fn lemma_stepped_in(
    nodes: Seq<NodeId>,
    step: StepModel,
    i: int,
    t: Tree,
    env: Surroundings,
)
    requires
        t.wf(),
        t.all_in(nodes),
        0 <= i,
    ensures
        stepped(nodes, step, i, t, env) matches Ok(r) ==> t.all_in(r),
    decreases nodes.len() - i,
{
    if i < nodes.len() {
        assert(t.has(nodes[i]));
        lemma_stepped_in(nodes, step, i + 1, t, env);
        lemma_axis_in(t, nodes[i], step.axis);
        if let Ok(r) = stepped(nodes, step, i, t, env) {
            let all = candidates(t, nodes[i], step.axis)->Ok_0;
            assert(all == axis_nodes(t, nodes[i], step.axis));
            lemma_named_in(t, all, step.test, 0);
            let matching = named_from(t, all, step.test, 0)->Ok_0;
            law_predicates_choose(matching, step.predicates, t, env);
            let left = filtered(matching, step.predicates, 0, t, env)->Ok_0;
            lemma_part_in(t, left, matching);
            t.lemma_all_in_add(left, stepped(nodes, step, i + 1, t, env)->Ok_0);
        }
    }
}

pub proof fn lemma_walked(
    nodes: Seq<NodeId>,
    steps: Seq<StepModel>,
    k: int,
    t: Tree,
    env: Surroundings,
)
    requires
        t.as_read(),
        is_node_set(t, nodes),
        0 <= k,
    ensures
        walked(nodes, steps, k, t, env) matches Ok(r) ==> is_node_set(t, r),
    decreases steps.len() - k,
{
    if k < steps.len() {
        lemma_stepped_in(nodes, steps[k], 0, t, env);
        if let Ok(next) = stepped(nodes, steps[k], 0, t, env) {
            lemma_unique_ascends(t, next);
            lemma_walked(sorted_unique(t, next), steps, k + 1, t, env);
        }
    }
}

/// A function that gives nodes was given them.
proof fn lemma_called_passes(
    name: Seq<char>,
    args: Seq<ExprModel>,
    given: Seq<Evaluated>,
    t: Tree,
    here: Here,
    env: Surroundings,
    nodes: Seq<NodeId>,
)
    requires
        called(name, args, given, t, here, env) == Ok::<ValueModel, Seq<char>>(
            ValueModel::NodeSet(nodes),
        ),
    ensures
        exists|i: int|
            0 <= i < given.len() && #[trigger] given[i] == Ok::<ValueModel, Seq<char>>(
                ValueModel::NodeSet(nodes),
            ),
{
    let r = called(name, args, given, t, here, env);
    assert(given[1] == r || given[2] == r);
}

/// Whatever nodes an expression finds in a document are nodes of that
/// document, in document order and each once: no path, predicate or union
/// gives a node twice or out of place.
pub proof fn law_found_in_document_order(
    e: ExprModel,
    t: Tree,
    here: Here,
    env: Surroundings,
    nodes: Seq<NodeId>,
)
    requires
        t.as_read(),
        t.has(here.node),
        stays_inside(e),
        eval(e, t, here, env) == Ok::<ValueModel, Seq<char>>(ValueModel::NodeSet(nodes)),
    ensures
        t.all_in(nodes),
        t.ascends(nodes),
    decreases e,
{
    match e {
        ExprModel::Union(left, right) => {
            let a = eval(*left, t, here, env)->Ok_0->NodeSet_0;
            let b = eval(*right, t, here, env)->Ok_0->NodeSet_0;
            law_found_in_document_order(*left, t, here, env, a);
            law_found_in_document_order(*right, t, here, env, b);
            t.lemma_all_in_add(a, b);
            lemma_unique_ascends(t, a + b);
        },
        ExprModel::Path { absolute, steps } => {
            if !absolute {
                lemma_walked(seq![here.node], steps, 0, t, env);
            } else {
                let root = t.root->0;
                assert(is_node_set(t, seq![root]));
                if names_root(steps, t, root) {
                    law_predicates_choose(seq![root], steps[0].predicates, t, env);
                    let left = filtered(seq![root], steps[0].predicates, 0, t, env)->Ok_0;
                    lemma_part_ascends(t, left, seq![root]);
                    lemma_walked(left, steps, 1, t, env);
                } else {
                    lemma_walked(seq![root], steps, 0, t, env);
                }
            }
        },
        ExprModel::Filter { base, predicates, steps } => {
            let start = eval(*base, t, here, env)->Ok_0->NodeSet_0;
            law_found_in_document_order(*base, t, here, env, start);
            law_predicates_choose(start, predicates, t, env);
            let left = filtered(start, predicates, 0, t, env)->Ok_0;
            lemma_part_ascends(t, left, start);
            lemma_walked(left, steps, 0, t, env);
        },
        ExprModel::Function { name, args } => {
            let given = results(args, t, here, env);
            lemma_called_passes(name, args, given, t, here, env, nodes);
            let i = choose|i: int|
                0 <= i < given.len() && #[trigger] given[i] == Ok::<ValueModel, Seq<char>>(
                    ValueModel::NodeSet(nodes),
                );
            assert(decreases_to!(args => args[i]));
            law_found_in_document_order(args[i], t, here, env, nodes);
        },
        _ => {},
    }
}

} // verus!
