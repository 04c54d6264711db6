//! What holds of answers and rows over several calls.

use crate::eval::frame::{lemma_named_same, lemma_sorted_same, same_shape};
use crate::eval::likeness::{
    alike, has_no_tables, here_in, law_evaluation_is_the_same_in_likes, lemma_text, renamed,
};
use crate::eval::nodes::{law_node_sets_in_document_order, named_from, sorted_unique};
use crate::eval::value::ValueModel;
use crate::eval::{eval, filtered, kept, names_root, stepped, walked, Here, Surroundings};
use crate::parser::ast::{Axis, ExprModel, StepModel, TestModel};
use crate::parser::grammar::parse_model;
use crate::parser::lexer::after;
use crate::rules::checking::{at, lemma_present, nodes_for, present};
use crate::rules::paths::child_step;
use crate::session::answers::{answer_at, answered, first_named, grown_along, node_at, not_empty};
use crate::rules::binding::ViolationModel;
use crate::rules::form::form_findings;
use crate::rules::live::{form_calculations, form_relevance, form_relevance_failures};
use crate::session::keeping::{
    can_be_put_down, law_answer_can_be_put_down, law_started_session_can_be_put_down,
    lemma_copy_unmarked, lemma_together_fits,
};
use crate::session::round_trip::{is_writable, law_written_reads_back};
use crate::session::templates::{blank_of, lifted, templates_from};
use crate::session::writing::document_text;
use crate::session::{
    applied_from, described, resumed, started, Applied, OutcomeModel, SessionModel,
};
use crate::table::{lookup, with_entry};
use crate::text::{is_blank, split_on};
use crate::tree::layout::law_documents_are_laid_out;
use crate::tree::listing::{law_copies_are_alike, originals};
use crate::tree::places::reached;
use crate::tree::{bare_node, NodeId, NodeKind, Ranking, Tree};
use vstd::prelude::*;

verus! {

// ---------------------------------------------------------------------------
// Paths that look at names and places only
// ---------------------------------------------------------------------------

/// Whether steps lead from parents to children by name and by place: what
/// the nodes hold does not change where they lead.
pub open spec fn by_shape(steps: Seq<StepModel>) -> bool {
    forall|i: int|
        0 <= i < steps.len() ==> (#[trigger] steps[i]).axis == Axis::Child && forall|j: int|
            0 <= j < steps[i].predicates.len() ==> (#[trigger] steps[i].predicates[j]) is Number
}

/// Whether a path is an absolute one that looks at names and places only,
/// as those are that questions are asked by.
pub open spec fn is_address(path: Seq<char>) -> bool {
    match parse_model(path) {
        Ok(ExprModel::Path { absolute, steps }) => absolute && by_shape(steps),
        _ => false,
    }
}

proof fn lemma_kept_same(
    t: Tree,
    u: Tree,
    nodes: Seq<NodeId>,
    predicate: ExprModel,
    i: int,
    env: Surroundings,
)
    requires
        predicate is Number,
    ensures
        kept(nodes, predicate, i, t, env) == kept(nodes, predicate, i, u, env),
    decreases nodes.len() - i,
{
    if 0 <= i < nodes.len() {
        lemma_kept_same(t, u, nodes, predicate, i + 1, env);
        let here = Here { node: nodes[i], position: (i + 1) as nat, size: nodes.len() };
        assert(eval(predicate, t, here, env) == eval(predicate, u, here, env));
    }
}

proof fn lemma_filtered_same(
    t: Tree,
    u: Tree,
    nodes: Seq<NodeId>,
    predicates: Seq<ExprModel>,
    k: int,
    env: Surroundings,
)
    requires
        forall|j: int| 0 <= j < predicates.len() ==> (#[trigger] predicates[j]) is Number,
    ensures
        filtered(nodes, predicates, k, t, env) == filtered(nodes, predicates, k, u, env),
    decreases predicates.len() - k,
{
    if 0 <= k < predicates.len() {
        assert(predicates[k] is Number);
        lemma_kept_same(t, u, nodes, predicates[k], 0, env);
        if let Ok(next) = kept(nodes, predicates[k], 0, t, env) {
            lemma_filtered_same(t, u, next, predicates, k + 1, env);
        }
    }
}

proof fn lemma_stepped_same(
    t: Tree,
    u: Tree,
    nodes: Seq<NodeId>,
    step: StepModel,
    i: int,
    env: Surroundings,
)
    requires
        same_shape(t, u),
        step.axis == Axis::Child,
        forall|j: int| 0 <= j < step.predicates.len() ==> (#[trigger] step.predicates[j]) is Number,
    ensures
        stepped(nodes, step, i, t, env) == stepped(nodes, step, i, u, env),
    decreases nodes.len() - i,
{
    if 0 <= i < nodes.len() {
        if t.has(nodes[i]) {
            assert(u.nodes[nodes[i].0 as int].children == t.nodes[nodes[i].0 as int].children);
            let all = t.children(nodes[i]);
            lemma_named_same(t, u, all, step.test, 0);
            if let Ok(matching) = named_from(t, all, step.test, 0) {
                lemma_filtered_same(t, u, matching, step.predicates, 0, env);
            }
        }
        lemma_stepped_same(t, u, nodes, step, i + 1, env);
    }
}

proof fn lemma_walked_same(
    t: Tree,
    u: Tree,
    nodes: Seq<NodeId>,
    steps: Seq<StepModel>,
    k: int,
    env: Surroundings,
)
    requires
        same_shape(t, u),
        by_shape(steps),
    ensures
        walked(nodes, steps, k, t, env) == walked(nodes, steps, k, u, env),
    decreases steps.len() - k,
{
    if 0 <= k < steps.len() {
        let step = steps[k];
        assert(step.axis == Axis::Child);
        lemma_stepped_same(t, u, nodes, step, 0, env);
        if let Ok(next) = stepped(nodes, step, 0, t, env) {
            lemma_sorted_same(t, u, next);
            lemma_walked_same(t, u, sorted_unique(t, next), steps, k + 1, env);
        }
    }
}

proof fn lemma_present_same(t: Tree, u: Tree, s: Seq<NodeId>)
    requires
        t.nodes.len() == u.nodes.len(),
    ensures
        present(t, s) == present(u, s),
    decreases s.len(),
{
    if s.len() > 0 {
        lemma_present_same(t, u, s.drop_last());
    }
}

/// A path that looks at names and places leads to the same nodes whatever
/// they hold.
pub proof fn lemma_nodes_same(t: Tree, u: Tree, path: Seq<char>, env: Surroundings)
    requires
        t.wf(),
        same_shape(t, u),
        is_address(path),
    ensures
        nodes_for(path, t, env) == nodes_for(path, u, env),
{
    if let Ok(ExprModel::Path { absolute, steps }) = parse_model(path) {
        if let Some(root) = t.root {
            assert(t.has(root));
            assert(u.nodes[root.0 as int].name == t.nodes[root.0 as int].name);
            if names_root(steps, t, root) {
                assert(steps[0].axis == Axis::Child);
                lemma_filtered_same(t, u, seq![root], steps[0].predicates, 0, env);
                if let Ok(nodes) = filtered(seq![root], steps[0].predicates, 0, t, env) {
                    lemma_walked_same(t, u, nodes, steps, 1, env);
                }
            } else {
                lemma_walked_same(t, u, seq![root], steps, 0, env);
            }
            if let Ok(ValueModel::NodeSet(nodes)) = eval(
                ExprModel::Path { absolute, steps },
                t,
                at(root),
                env,
            ) {
                lemma_present_same(t, u, nodes);
            }
        }
    }
}

/// What a node without children holds is its own value.
pub proof fn lemma_leaf(t: Tree, n: NodeId)
    requires
        t.wf(),
        t.has(n),
        t.children(n).len() == 0,
    ensures
        t.string_value(n) == t.value(n),
{
    assert(t.below(n, 0, false) == Seq::<NodeId>::empty());
    assert(t.descendants(n) == Seq::<NodeId>::empty());
    assert(t.value(n) + Seq::<char>::empty() == t.value(n));
}

pub proof fn lemma_node_in(t: Tree, path: Seq<char>, env: Surroundings)
    ensures
        node_at(t, path, env) matches Some(n) ==> t.has(n),
{
    if let (Ok(e), Some(root)) = (parse_model(path), t.root) {
        if let Ok(ValueModel::NodeSet(nodes)) = eval(e, t, at(root), env) {
            lemma_present(t, nodes);
            if present(t, nodes).len() > 0 {
                assert(t.has(present(t, nodes)[0]));
            }
        }
    }
}

/// A question that is answered has that answer.
pub proof fn law_answer_reads_back(s: SessionModel, path: Seq<char>, value: Seq<char>, n: NodeId)
    requires
        s.wf(),
        is_address(path),
        node_at(s.instance, path, s.env()) == Some(n),
        s.instance.children(n).len() == 0,
    ensures
        s.set(path, value) matches Ok(t) && (SessionModel { instance: t, ..s }).get(path) == value,
{
    let t = s.instance;
    let u = t.with_value(n, value);
    lemma_node_in(t, path, s.env());
    assert(same_shape(t, u));
    lemma_nodes_same(t, u, path, s.env());
    t.lemma_with_value_wf(n, value);
    lemma_leaf(u, n);
    let after = SessionModel { instance: u, ..s };
    assert(after.env() == s.env());
}

/// A question that is answered leaves the answers to others as they were.
pub proof fn law_other_answers_stay(
    s: SessionModel,
    path: Seq<char>,
    value: Seq<char>,
    n: NodeId,
    other: Seq<char>,
    m: NodeId,
)
    requires
        s.wf(),
        is_address(path),
        is_address(other),
        node_at(s.instance, path, s.env()) == Some(n),
        node_at(s.instance, other, s.env()) == Some(m),
        m != n,
        s.instance.children(m).len() == 0,
    ensures
        s.set(path, value) matches Ok(t) && (SessionModel { instance: t, ..s }).get(other) == s.get(
            other,
        ),
{
    let t = s.instance;
    let u = t.with_value(n, value);
    lemma_node_in(t, path, s.env());
    lemma_node_in(t, other, s.env());
    assert(same_shape(t, u));
    lemma_nodes_same(t, u, other, s.env());
    t.lemma_with_value_wf(n, value);
    lemma_leaf(u, m);
    lemma_leaf(t, m);
    let after = SessionModel { instance: u, ..s };
    assert(after.env() == s.env());
}

// ---------------------------------------------------------------------------
// Paths that are made
// ---------------------------------------------------------------------------

/// The names that a path is made of.
pub open spec fn names_in(path: Seq<char>) -> Seq<Seq<char>> {
    not_empty(split_on(path, '/'))
}

/// Whether a path is an absolute one that is read as the names it is made
/// of, one child step for each.
pub open spec fn is_plain_path(path: Seq<char>) -> bool {
    parse_model(path) == Ok::<ExprModel, Seq<char>>(
        ExprModel::Path {
            absolute: true,
            steps: Seq::new(names_in(path).len(), |i: int| child_step(names_in(path)[i])),
        },
    )
}

proof fn lemma_named_found(t: Tree, s: Seq<NodeId>, name: Seq<char>, i: int)
    requires
        t.all_in(s),
        0 <= i <= s.len(),
    ensures
        named_from(t, s, TestModel::Named(name), i) matches Ok(r) && (forall|m: NodeId| #[trigger]
            r.contains(m) <==> s.skip(i).contains(m) && t.name(m) == name),
    decreases s.len() - i,
{
    if i < s.len() {
        lemma_named_found(t, s, name, i + 1);
        assert(t.has(s[i]));
        let rest = named_from(t, s, TestModel::Named(name), i + 1)->Ok_0;
        let r = named_from(t, s, TestModel::Named(name), i)->Ok_0;
        assert forall|m: NodeId| #[trigger] r.contains(m) <==> s.skip(i).contains(m) && t.name(m)
            == name by {
            assert(s.skip(i) == seq![s[i]] + s.skip(i + 1));
            lemma_cons(s[i], s.skip(i + 1), m);
            lemma_cons(s[i], rest, m);
            assert(rest.contains(m) <==> s.skip(i + 1).contains(m) && t.name(m) == name);
        }
    } else {
        let r = named_from(t, s, TestModel::Named(name), i)->Ok_0;
        assert(r == Seq::<NodeId>::empty());
        assert(s.skip(i) == Seq::<NodeId>::empty());
    }
}

proof fn lemma_cons(n: NodeId, s: Seq<NodeId>, m: NodeId)
    ensures
        (seq![n] + s).contains(m) <==> m == n || s.contains(m),
{
    let r = seq![n] + s;
    if m == n {
        assert(r[0] == m);
    }
    if s.contains(m) {
        let k = choose|k: int| 0 <= k < s.len() && s[k] == m;
        assert(r[k + 1] == m);
    }
    if r.contains(m) {
        let k = choose|k: int| 0 <= k < r.len() && r[k] == m;
        if k > 0 {
            assert(s[k - 1] == m);
        }
    }
}

proof fn lemma_joined(a: Seq<NodeId>, b: Seq<NodeId>, m: NodeId)
    ensures
        (a + b).contains(m) <==> a.contains(m) || b.contains(m),
{
    let r = a + b;
    if a.contains(m) {
        let k = choose|k: int| 0 <= k < a.len() && a[k] == m;
        assert(r[k] == m);
    }
    if b.contains(m) {
        let k = choose|k: int| 0 <= k < b.len() && b[k] == m;
        assert(r[a.len() + k] == m);
    }
    if r.contains(m) {
        let k = choose|k: int| 0 <= k < r.len() && r[k] == m;
        if k < a.len() {
            assert(a[k] == m);
        } else {
            assert(b[k - a.len()] == m);
        }
    }
}

/// Whether a node is a child, of a name, of one of some nodes.
spec fn child_of(t: Tree, nodes: Seq<NodeId>, name: Seq<char>, i: int, m: NodeId) -> bool {
    t.name(m) == name && exists|k: int|
        i <= k < nodes.len() && t.children(#[trigger] nodes[k]).contains(m)
}

proof fn lemma_step_found(t: Tree, nodes: Seq<NodeId>, name: Seq<char>, i: int, env: Surroundings)
    requires
        t.wf(),
        t.all_in(nodes),
        0 <= i <= nodes.len(),
    ensures
        stepped(nodes, child_step(name), i, t, env) matches Ok(r) && (forall|m: NodeId| #[trigger]
            r.contains(m) <==> child_of(t, nodes, name, i, m)),
    decreases nodes.len() - i,
{
    if i < nodes.len() {
        let n = nodes[i];
        assert(t.has(n));
        lemma_step_found(t, nodes, name, i + 1, env);
        t.lemma_children_in(n);
        lemma_named_found(t, t.children(n), name, 0);
        let mine = named_from(t, t.children(n), TestModel::Named(name), 0)->Ok_0;
        let rest = stepped(nodes, child_step(name), i + 1, t, env)->Ok_0;
        let r = stepped(nodes, child_step(name), i, t, env)->Ok_0;
        assert(filtered(mine, child_step(name).predicates, 0, t, env) == Ok::<
            Seq<NodeId>,
            Seq<char>,
        >(mine));
        assert(r == mine + rest);
        assert(t.children(n).skip(0) == t.children(n));
        assert forall|m: NodeId| #[trigger] r.contains(m) <==> child_of(
            t,
            nodes,
            name,
            i,
            m,
        ) by {
            lemma_joined(mine, rest, m);
            assert(mine.contains(m) <==> t.children(n).skip(0).contains(m) && t.name(m) == name);
            assert(rest.contains(m) <==> child_of(t, nodes, name, i + 1, m));
            if child_of(t, nodes, name, i, m) {
                let k = choose|k: int|
                    i <= k < nodes.len() && t.children(#[trigger] nodes[k]).contains(m);
                if k > i {
                    assert(child_of(t, nodes, name, i + 1, m));
                }
            }
            if child_of(t, nodes, name, i + 1, m) {
                let k = choose|k: int|
                    i + 1 <= k < nodes.len() && t.children(#[trigger] nodes[k]).contains(m);
                assert(t.children(nodes[k]).contains(m));
            }
        }
    } else {
        let r = stepped(nodes, child_step(name), i, t, env)->Ok_0;
        assert(r == Seq::<NodeId>::empty());
    }
}

proof fn lemma_walk_found(
    t: Tree,
    root: NodeId,
    nodes: Seq<NodeId>,
    names: Seq<Seq<char>>,
    steps: Seq<StepModel>,
    j: int,
    env: Surroundings,
)
    requires
        t.wf(),
        t.upright(),
        t.has(root),
        t.all_in(nodes),
        0 <= j <= names.len(),
        steps.len() == names.len() + 1,
        forall|i: int| 0 <= i < names.len() ==> #[trigger] steps[i + 1] == child_step(names[i]),
        forall|m: NodeId| #[trigger] nodes.contains(m) <==> reached(t, root, names, j, m),
    ensures
        walked(nodes, steps, j + 1, t, env) matches Ok(r) && t.all_in(r) && (forall|m: NodeId|
            #[trigger] r.contains(m) <==> reached(t, root, names, names.len() as int, m)),
    decreases names.len() - j,
{
    if j < names.len() {
        let name = names[j];
        assert(steps[j + 1] == child_step(name));
        lemma_step_found(t, nodes, name, 0, env);
        let found = stepped(nodes, child_step(name), 0, t, env)->Ok_0;
        let next = sorted_unique(t, found);
        law_node_sets_in_document_order(t, found);
        assert forall|m: NodeId| #[trigger] next.contains(m) <==> reached(
            t,
            root,
            names,
            j + 1,
            m,
        ) by {
            assert(next.contains(m) <==> found.contains(m));
            assert(found.contains(m) <==> child_of(t, nodes, name, 0, m));
            if child_of(t, nodes, name, 0, m) {
                let k = choose|k: int|
                    0 <= k < nodes.len() && t.children(#[trigger] nodes[k]).contains(m);
                let p = nodes[k];
                assert(nodes.contains(p));
                assert(t.has(p));
                let c = choose|c: int| 0 <= c < t.children(p).len() && t.children(p)[c] == m;
                assert(t.nodes[p.0 as int].children[c] == m);
                assert(t.parent(m) == Some(p));
            }
            if reached(t, root, names, j + 1, m) {
                let p = t.parent(m)->0;
                assert(nodes.contains(p));
                let k = choose|k: int| 0 <= k < nodes.len() && nodes[k] == p;
                assert(t.children(nodes[k]).contains(m));
            }
        }
        assert(t.all_in(next)) by {
            assert forall|i: int| 0 <= i < next.len() implies t.has(#[trigger] next[i]) by {
                assert(next.contains(next[i]));
            }
        }
        lemma_walk_found(t, root, next, names, steps, j + 1, env);
    }
}

proof fn lemma_present_all(t: Tree, s: Seq<NodeId>)
    requires
        t.all_in(s),
    ensures
        present(t, s) == s,
    decreases s.len(),
{
    if s.len() > 0 {
        let d = s.drop_last();
        assert forall|i: int| 0 <= i < d.len() implies t.has(#[trigger] d[i]) by {
            assert(t.has(s[i]));
        }
        lemma_present_all(t, d);
        assert(t.has(s[s.len() - 1]));
        assert(d.push(s.last()) == s);
    }
}

/// The nodes that a plain path names are those that its names reach.
pub(crate) proof fn lemma_plain_path(t: Tree, path: Seq<char>, root: NodeId, env: Surroundings)
    requires
        t.wf(),
        t.upright(),
        t.root == Some(root),
        is_plain_path(path),
        names_in(path).len() > 0,
        names_in(path)[0] == t.name(root),
    ensures
        forall|m: NodeId| #[trigger]
            nodes_for(path, t, env).contains(m) <==> reached(
                t,
                root,
                names_in(path).skip(1),
                names_in(path).len() - 1,
                m,
            ),
{
    let all = names_in(path);
    let names = all.skip(1);
    let steps = Seq::new(all.len(), |i: int| child_step(all[i]));
    assert(steps[0] == child_step(all[0]));
    assert(filtered(seq![root], steps[0].predicates, 0, t, env) == Ok::<Seq<NodeId>, Seq<char>>(
        seq![root],
    ));
    assert(t.has(root));
    assert forall|m: NodeId| #[trigger] seq![root].contains(m) <==> reached(
        t,
        root,
        names,
        0,
        m,
    ) by {
        assert(seq![root][0] == root);
    }
    assert forall|i: int| 0 <= i < names.len() implies #[trigger] steps[i + 1] == child_step(
        names[i],
    ) by {}
    lemma_walk_found(t, root, seq![root], names, steps, 0, env);
    let r = walked(seq![root], steps, 1, t, env)->Ok_0;
    lemma_present_all(t, r);
    assert(eval(ExprModel::Path { absolute: true, steps }, t, at(root), env) == Ok::<
        ValueModel,
        Seq<char>,
    >(ValueModel::NodeSet(r)));
}

/// A node is reached at one depth.
pub(crate) proof fn lemma_depth(t: Tree, root: NodeId, names: Seq<Seq<char>>, j: int, m: NodeId)
    requires
        t.wf(),
        t.has(root),
        0 <= j,
        reached(t, root, names, j, m),
    ensures
        t.height(root) >= t.height(m) + j,
        t.has(m),
    decreases j,
{
    if j > 0 {
        let p = t.parent(m)->0;
        lemma_depth(t, root, names, j - 1, p);
        t.lemma_ranking();
        let c = choose|c: int| 0 <= c < t.children(p).len() && t.children(p)[c] == m;
        assert(t.nodes[p.0 as int].children[c] == m);
    }
}

pub(crate) proof fn lemma_one_depth(
    t: Tree,
    root: NodeId,
    names: Seq<Seq<char>>,
    i: int,
    j: int,
    m: NodeId,
)
    requires
        t.wf(),
        t.has(root),
        0 <= i <= j,
        reached(t, root, names, i, m),
        reached(t, root, names, j, m),
    ensures
        i == j,
    decreases j,
{
    if i > 0 {
        lemma_one_depth(t, root, names, i - 1, j - 1, t.parent(m)->0);
    } else if j > 0 {
        lemma_depth(t, root, names, j, m);
    }
}

pub proof fn lemma_element_kept(t: Tree, parent: NodeId, name: Seq<char>, value: Seq<char>)
    requires
        t.wf(),
        t.upright(),
        t.has(parent),
        t.nodes.len() < usize::MAX,
    ensures
        t.with_element(parent, name, value).wf(),
        t.with_element(parent, name, value).upright(),
        t.with_element(parent, name, value).nodes.len() == t.nodes.len() + 1,
{
    let u = t.grown(bare_node(NodeKind::Element, name, value));
    let id = NodeId(t.nodes.len() as usize);
    t.lemma_grown_wf(NodeKind::Element, name, value);
    t.lemma_grown_split(NodeKind::Element, name, value);
    u.lemma_split_can_hold(t.nodes.len() as int, parent, id);
    u.lemma_appended_wf(parent, id);
    t.lemma_grown_upright(NodeKind::Element, name, value);
    u.lemma_split_unlinked(t.nodes.len() as int);
    u.lemma_appended_upright(parent, id);
}

/// A new element changes nothing of what reaches the nodes that were there,
/// and is itself reached one step below its parent.
proof fn lemma_element_reached(
    t: Tree,
    root: NodeId,
    names: Seq<Seq<char>>,
    here: NodeId,
    name: Seq<char>,
    value: Seq<char>,
    j: int,
    m: NodeId,
)
    requires
        t.wf(),
        t.upright(),
        t.has(root),
        t.has(here),
        t.nodes.len() < usize::MAX,
        0 <= j,
    ensures
        ({
            let u = t.with_element(here, name, value);
            let id = NodeId(t.nodes.len() as usize);
            &&& m.0 < t.nodes.len() ==> (reached(u, root, names, j, m) <==> reached(
                t,
                root,
                names,
                j,
                m,
            ))
            &&& reached(u, root, names, j, id) <==> j > 0 && name == names[j - 1] && reached(
                t,
                root,
                names,
                j - 1,
                here,
            )
        }),
    decreases j,
{
    let u = t.with_element(here, name, value);
    let id = NodeId(t.nodes.len() as usize);
    assert(u.children(here) == t.children(here).push(id));
    assert(u.nodes[id.0 as int].parent == Some(here));
    if j > 0 {
        lemma_element_reached(t, root, names, here, name, value, j - 1, here);
        assert(u.children(here)[t.children(here).len() as int] == id);
        if m.0 < t.nodes.len() {
            assert(u.nodes[m.0 as int].parent == t.nodes[m.0 as int].parent);
            assert(u.nodes[m.0 as int].name == t.nodes[m.0 as int].name);
            if let Some(p) = t.parent(m) {
                t.lemma_parent(m);
                lemma_element_reached(t, root, names, here, name, value, j - 1, p);
                if p == here {
                    if t.children(p).contains(m) {
                        let c = choose|c: int|
                            0 <= c < t.children(p).len() && t.children(p)[c] == m;
                        assert(u.children(p)[c] == m);
                    }
                    if u.children(p).contains(m) {
                        let c = choose|c: int|
                            0 <= c < u.children(p).len() && u.children(p)[c] == m;
                        assert(t.children(p)[c] == m);
                    }
                } else {
                    assert(u.nodes[p.0 as int].children == t.nodes[p.0 as int].children);
                }
            }
        }
    }
}

/// What a made path looks like: what was reached is reached as it was, and
/// of the new nodes the whole path reaches the last, which holds the value.
spec fn is_made(
    t: Tree,
    u: Tree,
    root: NodeId,
    names: Seq<Seq<char>>,
    value: Seq<char>,
) -> bool {
    let leaf = NodeId((u.nodes.len() - 1) as usize);
    &&& u.nodes.len() > t.nodes.len()
    &&& u.nodes.len() <= usize::MAX
    &&& u.root == t.root
    &&& u.wf()
    &&& u.upright()
    &&& u.name(root) == t.name(root)
    &&& forall|j: int, m: NodeId|
        0 <= j && m.0 < t.nodes.len() ==> (#[trigger] reached(u, root, names, j, m) <==> reached(
            t,
            root,
            names,
            j,
            m,
        ))
    &&& forall|m: NodeId|
        m.0 >= t.nodes.len() ==> (#[trigger] reached(
            u,
            root,
            names,
            names.len() as int,
            m,
        ) <==> m == leaf)
    &&& u.value(leaf) == value
    &&& u.children(leaf).len() == 0
}

proof fn lemma_made(
    t: Tree,
    root: NodeId,
    here: NodeId,
    parts: Seq<Seq<char>>,
    k: int,
    leaf: Seq<char>,
    value: Seq<char>,
)
    requires
        t.wf(),
        t.upright(),
        t.has(root),
        t.has(here),
        0 <= k <= parts.len(),
        reached(t, root, parts.push(leaf), k, here),
        t.nodes.len() + parts.len() - k < usize::MAX,
    ensures
        is_made(
            t,
            grown_along(t, here, parts, k, leaf, value),
            root,
            parts.push(leaf),
            value,
        ),
    decreases parts.len() - k,
{
    let names = parts.push(leaf);
    let u = grown_along(t, here, parts, k, leaf, value);
    let id = NodeId(t.nodes.len() as usize);
    if k >= parts.len() {
        lemma_element_kept(t, here, leaf, value);
        assert forall|j: int, m: NodeId| 0 <= j && m.0 < t.nodes.len() implies (#[trigger] reached(
            u,
            root,
            names,
            j,
            m,
        ) <==> reached(t, root, names, j, m)) by {
            lemma_element_reached(t, root, names, here, leaf, value, j, m);
        }
        assert forall|m: NodeId| m.0 >= t.nodes.len() implies (#[trigger] reached(
            u,
            root,
            names,
            names.len() as int,
            m,
        ) <==> m == id) by {
            lemma_element_reached(t, root, names, here, leaf, value, names.len() as int, m);
        }
    } else {
        match first_named(t, t.children(here), parts[k], 0) {
            Some(child) => {
                t.lemma_children_in(here);
                lemma_first_named(t, t.children(here), parts[k], 0);
                let c = choose|c: int|
                    0 <= c < t.children(here).len() && t.children(here)[c] == child;
                assert(t.nodes[here.0 as int].children[c] == child);
                lemma_made(t, root, child, parts, k + 1, leaf, value);
            },
            None => {
                let v = t.with_element(here, parts[k], ""@);
                lemma_element_kept(t, here, parts[k], ""@);
                lemma_element_reached(t, root, names, here, parts[k], ""@, k + 1, id);
                lemma_made(v, root, id, parts, k + 1, leaf, value);
                assert forall|j: int, m: NodeId| 0 <= j && m.0 < t.nodes.len() implies (
                #[trigger] reached(u, root, names, j, m) <==> reached(t, root, names, j, m)) by {
                    lemma_element_reached(t, root, names, here, parts[k], ""@, j, m);
                    assert(reached(u, root, names, j, m) <==> reached(v, root, names, j, m));
                }
                let end = NodeId((u.nodes.len() - 1) as usize);
                assert forall|m: NodeId| m.0 >= t.nodes.len() implies (#[trigger] reached(
                    u,
                    root,
                    names,
                    names.len() as int,
                    m,
                ) <==> m == end) by {
                    if m == id {
                        assert(reached(u, root, names, names.len() as int, m) <==> reached(
                            v,
                            root,
                            names,
                            names.len() as int,
                            m,
                        ));
                        if reached(v, root, names, names.len() as int, m) {
                            lemma_one_depth(v, root, names, k + 1, names.len() as int, m);
                        }
                    }
                }
            },
        }
    }
}

proof fn lemma_first_named(t: Tree, s: Seq<NodeId>, name: Seq<char>, i: int)
    requires
        t.all_in(s),
        0 <= i,
    ensures
        first_named(t, s, name, i) matches Some(n) ==> s.contains(n) && t.name(n) == name && t.has(
            n,
        ),
    decreases s.len() - i,
{
    if i < s.len() {
        assert(t.has(s[i]));
        lemma_first_named(t, s, name, i + 1);
    }
}

/// An answer to a question that the instance had no place for is there once
/// it has been given, where the path is one of names that starts at the
/// instance's own root.
pub proof fn law_new_answer_reads_back(
    s: SessionModel,
    path: Seq<char>,
    value: Seq<char>,
    root: NodeId,
)
    requires
        s.wf(),
        is_plain_path(path),
        s.instance.root == Some(root),
        names_in(path).len() > 1,
        names_in(path)[0] == s.instance.name(root),
        node_at(s.instance, path, s.env()) is None,
        s.set(path, value) is Ok,
        s.instance.nodes.len() + names_in(path).len() < usize::MAX,
    ensures
        (SessionModel { instance: s.set(path, value)->Ok_0, ..s }).get(path) == value,
{
    let t = s.instance;
    let env = s.env();
    let all = names_in(path);
    let above = all.drop_last();
    let below = above.skip(1);
    let names = all.skip(1);
    assert(names == below.push(all.last()));
    let u = grown_along(t, root, below, 0, all.last(), value);
    lemma_made(t, root, root, below, 0, all.last(), value);
    let v = u.reindexed();
    u.lemma_rerooted_wf(u.root, v.order);
    assert(v == Tree { root: u.root, order: v.order, ..u });
    u.lemma_same_nodes_upright(v);
    lemma_plain_path(t, path, root, env);
    lemma_plain_path(v, path, root, env);
    let leaf = NodeId((u.nodes.len() - 1) as usize);
    let r = nodes_for(path, v, env);
    let n = names.len() as int;
    assert forall|m: NodeId| #[trigger] r.contains(m) <==> m == leaf by {
        lemma_reached_same(u, v, root, names, n, m);
        assert(r.contains(m) <==> reached(v, root, names, n, m));
        if m.0 < t.nodes.len() {
            assert(reached(u, root, names, n, m) <==> reached(t, root, names, n, m));
            assert(nodes_for(path, t, env).contains(m) <==> reached(t, root, names, n, m));
        } else {
            assert(reached(u, root, names, n, m) <==> m == leaf);
        }
    }
    assert(r.contains(leaf));
    assert(r.contains(r[0]));
    lemma_leaf(v, leaf);
    let done = SessionModel { instance: v, ..s };
    assert(done.env() == env);
    assert(s.set(path, value) == Ok::<Tree, Seq<char>>(v));
}

pub(crate) proof fn lemma_reached_same(
    t: Tree,
    u: Tree,
    root: NodeId,
    names: Seq<Seq<char>>,
    j: int,
    m: NodeId,
)
    requires
        t.nodes == u.nodes,
    ensures
        reached(t, root, names, j, m) == reached(u, root, names, j, m),
    decreases j,
{
    if j > 0 {
        if let Some(p) = t.parent(m) {
            lemma_reached_same(t, u, root, names, j - 1, p);
        }
    }
}

// ---------------------------------------------------------------------------
// Outcomes
// ---------------------------------------------------------------------------

/// Whether no path of a list is one that is not asked.
spec fn all_asked(o: OutcomeModel) -> bool {
    &&& forall|i: int|
        0 <= i < o.missing.len() ==> lookup(o.relevant, #[trigger] o.missing[i]) != Some(false)
    &&& forall|i: int|
        0 <= i < o.invalid.len() ==> lookup(o.relevant, (#[trigger] o.invalid[i]).0) != Some(false)
}

proof fn lemma_noted(o: OutcomeModel, s: Seq<ViolationModel>, k: int)
    requires
        all_asked(o),
        0 <= k,
    ensures
        all_asked(o.noting_all(s, k)),
        o.noting_all(s, k).relevant == o.relevant,
        o.noting_all(s, k).calculated == o.calculated,
    decreases s.len() - k,
{
    if k < s.len() {
        let next = o.noting(s[k]);
        assert(all_asked(next)) by {
            assert forall|i: int| 0 <= i < next.missing.len() implies lookup(
                next.relevant,
                #[trigger] next.missing[i],
            ) != Some(false) by {
                if i < o.missing.len() {
                    assert(next.missing[i] == o.missing[i]);
                }
            }
            assert forall|i: int| 0 <= i < next.invalid.len() implies lookup(
                next.relevant,
                (#[trigger] next.invalid[i]).0,
            ) != Some(false) by {
                if i < o.invalid.len() {
                    assert(next.invalid[i] == o.invalid[i]);
                }
            }
        }
        lemma_noted(next, s, k + 1);
    }
}

/// A question nobody is asked is neither missing an answer nor has one
/// rejected.
pub proof fn law_unasked_questions_are_not_reported(s: SessionModel)
    ensures
        forall|i: int|
            0 <= i < s.outcome().missing.len() ==> lookup(
                s.outcome().relevant,
                #[trigger] s.outcome().missing[i],
            ) != Some(false),
        forall|i: int|
            0 <= i < s.outcome().invalid.len() ==> lookup(
                s.outcome().relevant,
                (#[trigger] s.outcome().invalid[i]).0,
            ) != Some(false),
{
    let after = SessionModel { instance: s.applied().tree, ..s };
    let start = OutcomeModel {
        calculated: s.applied().calculated,
        relevant: form_relevance(s.form, after.instance, s.today, s.now),
        missing: Seq::empty(),
        invalid: Seq::empty(),
        failed: form_calculations(s.form, s.instance, s.today, s.now).failed + described(
            form_relevance_failures(s.form, after.instance, s.today, s.now),
        ),
        repeats: Seq::empty(),
    };
    lemma_noted(start, form_findings(s.form, after.instance, s.today, s.now), 0);
}

proof fn lemma_nothing_applied(
    a: Applied,
    computed: Seq<(Seq<char>, Seq<char>)>,
    k: int,
    env: Surroundings,
)
    requires
        0 <= k,
        forall|i: int|
            0 <= i < computed.len() ==> answer_at(a.tree, (#[trigger] computed[i]).0, env)
                == computed[i].1,
    ensures
        applied_from(a, computed, k, env) == a,
    decreases computed.len() - k,
{
    if k < computed.len() {
        assert(answer_at(a.tree, computed[k].0, env) == computed[k].1);
        lemma_nothing_applied(a, computed, k + 1, env);
    }
}

/// Only what changed is reported, and written: where every calculation comes
/// to the answer that is there, nothing is.
pub proof fn law_only_what_changed_is_reported(s: SessionModel)
    requires
        ({
            let computed = form_calculations(s.form, s.instance, s.today, s.now).computed;
            forall|i: int|
                0 <= i < computed.len() ==> s.get((#[trigger] computed[i]).0) == computed[i].1
        }),
    ensures
        s.applied().tree == s.instance,
        s.outcome().calculated == Seq::<(Seq<char>, Seq<char>)>::empty(),
{
    let computed = form_calculations(s.form, s.instance, s.today, s.now).computed;
    let start = Applied { tree: s.instance, calculated: Seq::empty() };
    assert forall|i: int| 0 <= i < computed.len() implies answer_at(
        start.tree,
        (#[trigger] computed[i]).0,
        s.env(),
    ) == computed[i].1 by {
        assert(s.get(computed[i].0) == computed[i].1);
    }
    lemma_nothing_applied(start, computed, 0, s.env());
    let after = SessionModel { instance: s.applied().tree, ..s };
    let outcome = OutcomeModel {
        calculated: s.applied().calculated,
        relevant: form_relevance(s.form, after.instance, s.today, s.now),
        missing: Seq::empty(),
        invalid: Seq::empty(),
        failed: form_calculations(s.form, s.instance, s.today, s.now).failed + described(
            form_relevance_failures(s.form, after.instance, s.today, s.now),
        ),
        repeats: Seq::empty(),
    };
    lemma_noted(outcome, form_findings(s.form, after.instance, s.today, s.now), 0);
}

/// Whether calculated values belong to questions of their own: each path
/// looks at names and places, and leads to a node that holds nothing but its
/// value and that no other of the paths leads to.
pub open spec fn are_questions(
    t: Tree,
    computed: Seq<(Seq<char>, Seq<char>)>,
    env: Surroundings,
) -> bool {
    &&& forall|i: int|
        0 <= i < computed.len() ==> is_address((#[trigger] computed[i]).0) && (node_at(
            t,
            computed[i].0,
            env,
        ) matches Some(n) && t.children(n).len() == 0)
    &&& forall|i: int, j: int|
        0 <= i < j < computed.len() ==> node_at(t, (#[trigger] computed[i]).0, env) != node_at(
            t,
            (#[trigger] computed[j]).0,
            env,
        )
}

/// What is written to questions of their own stays written.
proof fn lemma_all_applied(
    t: Tree,
    a: Applied,
    computed: Seq<(Seq<char>, Seq<char>)>,
    k: int,
    env: Surroundings,
)
    requires
        t.wf(),
        are_questions(t, computed, env),
        a.tree.wf(),
        same_shape(t, a.tree),
        0 <= k <= computed.len(),
        forall|i: int|
            0 <= i < k ==> answer_at(a.tree, (#[trigger] computed[i]).0, env) == computed[i].1,
    ensures
        forall|i: int|
            0 <= i < computed.len() ==> answer_at(
                applied_from(a, computed, k, env).tree,
                (#[trigger] computed[i]).0,
                env,
            ) == computed[i].1,
    decreases computed.len() - k,
{
    if k < computed.len() {
        let (path, value) = computed[k];
        assert(is_address(computed[k].0));
        let n = node_at(t, path, env)->0;
        lemma_nodes_same(t, a.tree, path, env);
        lemma_node_in(t, path, env);
        if answer_at(a.tree, path, env) == value {
            lemma_all_applied(t, a, computed, k + 1, env);
        } else {
            let u = a.tree.with_value(n, value);
            a.tree.lemma_with_value_wf(n, value);
            assert(same_shape(t, u));
            let next = Applied { tree: u, calculated: with_entry(a.calculated, path, value) };
            assert forall|i: int| 0 <= i < k + 1 implies answer_at(u, (#[trigger] computed[i]).0, env)
                == computed[i].1 by {
                let other = computed[i].0;
                assert(is_address(other));
                let m = node_at(t, other, env)->0;
                lemma_node_in(t, other, env);
                lemma_nodes_same(t, a.tree, other, env);
                lemma_nodes_same(t, u, other, env);
                assert(a.tree.nodes[m.0 as int].children == t.nodes[m.0 as int].children);
                assert(u.nodes[m.0 as int].children == t.nodes[m.0 as int].children);
                lemma_leaf(u, m);
                lemma_leaf(a.tree, m);
                if i < k {
                    assert(node_at(t, computed[i].0, env) != node_at(t, computed[k].0, env));
                }
            }
            lemma_all_applied(t, next, computed, k + 1, env);
        }
    }
}

/// Calculations that come to the same again report nothing and write
/// nothing, where the values are those of questions of their own.
pub proof fn law_same_calculations_report_nothing(s: SessionModel)
    requires
        s.wf(),
        are_questions(
            s.instance,
            form_calculations(s.form, s.instance, s.today, s.now).computed,
            s.env(),
        ),
        form_calculations(s.form, s.applied().tree, s.today, s.now).computed == form_calculations(
            s.form,
            s.instance,
            s.today,
            s.now,
        ).computed,
    ensures
        ({
            let after = SessionModel { instance: s.applied().tree, ..s };
            &&& after.outcome().calculated == Seq::<(Seq<char>, Seq<char>)>::empty()
            &&& after.applied().tree == after.instance
        }),
{
    let computed = form_calculations(s.form, s.instance, s.today, s.now).computed;
    let start = Applied { tree: s.instance, calculated: Seq::empty() };
    let after = SessionModel { instance: s.applied().tree, ..s };
    assert(after.env() == s.env());
    lemma_all_applied(s.instance, start, computed, 0, s.env());
    assert forall|i: int| 0 <= i < computed.len() implies after.get((#[trigger] computed[i]).0)
        == computed[i].1 by {}
    law_only_what_changed_is_reported(after);
}

// ---------------------------------------------------------------------------
// Put down and picked up
// ---------------------------------------------------------------------------

/// A session that was put down is picked up with the answers it had, where
/// those can be written and none of them is marked as a template: what is
/// resumed from what it would send is a copy of it.
pub proof fn law_saved_session_resumes(
    xform: Seq<char>,
    started_with: SessionModel,
    s: SessionModel,
    root: NodeId,
)
    requires
        started(xform, s.today, s.now) == Ok::<SessionModel, Seq<char>>(started_with),
        s.form == started_with.form,
        s.templates == started_with.templates,
        s.wf(),
        s.instance.root == Some(root),
        is_writable(s.instance, root),
        s.instance.size(root) <= usize::MAX,
        ({
            let copy = s.instance.subtree(root);
            templates_from(copy, copy.descendants(NodeId(0)), 0).len() == 0
        }),
    ensures
        resumed(xform, document_text(s.instance), s.today, s.now) == Ok::<SessionModel, Seq<char>>(
            SessionModel { instance: s.instance.subtree(root), ..s },
        ),
        s.instance.subtree(root).is_copy(NodeId(0), s.instance, root),
{
    let t = s.instance;
    let copy = t.subtree(root);
    law_written_reads_back(t, root);
    t.law_subtree_is_a_copy(root);
    let e = Tree::empty();
    assert(e.wf()) by {
        assert(e.ranked(Ranking { of: Seq::empty(), bound: 0 }));
    }
    e.lemma_adopted_linked(t, root);
    e.lemma_adopted(e, t, root);
    let adopted = e.adopted(t, root);
    let rooted = Tree { root: Some(NodeId(0)), ..adopted };
    adopted.lemma_rerooted_wf(Some(NodeId(0)), adopted.order);
    assert(rooted == Tree { root: Some(NodeId(0)), order: adopted.order, ..adopted });
    rooted.law_reindexed_once();
    assert(copy == rooted.reindexed());
    assert(lifted(copy).tree == copy.reindexed());
    assert(lifted(copy).tree == copy);
}

/// A new element under one that is no attribute leaves attributes apart, and
/// is none itself.
proof fn lemma_element_apart(t: Tree, parent: NodeId, name: Seq<char>, value: Seq<char>)
    requires
        t.wf(),
        t.upright(),
        t.all_apart(),
        t.has(parent),
        !t.is_attribute(parent),
        t.nodes.len() < usize::MAX,
    ensures
        ({
            let u = t.with_element(parent, name, value);
            let id = NodeId(t.nodes.len() as usize);
            &&& u.all_apart()
            &&& u.root == t.root
            &&& !u.is_attribute(id)
            &&& forall|n: NodeId| #[trigger] t.has(n) ==> u.parent(n) == t.parent(n)
        }),
{
    let g = t.grown(bare_node(NodeKind::Element, name, value));
    let id = NodeId(t.nodes.len() as usize);
    t.lemma_grown_wf(NodeKind::Element, name, value);
    t.lemma_grown_split(NodeKind::Element, name, value);
    t.lemma_grown_apart(name, value);
    t.lemma_stays_none(g, parent);
    g.lemma_appended_apart(parent, id);
    let u = t.with_element(parent, name, value);
    assert(u.children(parent).last() == id);
    assert(u.children(parent)[u.children(parent).len() - 1] == id);
    assert(u.children(parent).contains(id));
    u.lemma_child_is_none(parent, id);
}

pub proof fn lemma_first_named_in(t: Tree, s: Seq<NodeId>, name: Seq<char>, i: int)
    requires
        0 <= i,
    ensures
        first_named(t, s, name, i) matches Some(n) ==> s.contains(n),
    decreases s.len() - i,
{
    if i < s.len() {
        lemma_first_named_in(t, s, name, i + 1);
    }
}

proof fn lemma_grown_together(
    t: Tree,
    root: NodeId,
    here: NodeId,
    parts: Seq<Seq<char>>,
    k: int,
    leaf: Seq<char>,
    value: Seq<char>,
)
    requires
        t.wf(),
        t.upright(),
        t.all_apart(),
        t.root == Some(root),
        t.parent(root) is None,
        t.has(here),
        !t.is_attribute(here),
        0 <= k <= parts.len(),
        t.nodes.len() + parts.len() - k < usize::MAX,
    ensures
        ({
            let u = grown_along(t, here, parts, k, leaf, value);
            &&& u.wf()
            &&& u.upright()
            &&& u.all_apart()
            &&& u.root == Some(root)
            &&& u.parent(root) is None
        }),
    decreases parts.len() - k,
{
    assert(t.has(root));
    if k < parts.len() {
        match first_named(t, t.children(here), parts[k], 0) {
            Some(child) => {
                lemma_first_named_in(t, t.children(here), parts[k], 0);
                t.lemma_children_in(here);
                let i = choose|i: int| 0 <= i < t.children(here).len() && t.children(here)[i] == child;
                assert(t.has(t.children(here)[i]));
                assert(t.nodes[here.0 as int].children[i] == child);
                assert(t.parent(child) == Some(here));
                t.lemma_child_is_none(here, child);
                lemma_grown_together(t, root, child, parts, k + 1, leaf, value);
            },
            None => {
                lemma_element_kept(t, here, parts[k], ""@);
                lemma_element_apart(t, here, parts[k], ""@);
                lemma_grown_together(
                    t.with_element(here, parts[k], ""@),
                    root,
                    NodeId(t.nodes.len() as usize),
                    parts,
                    k + 1,
                    leaf,
                    value,
                );
            },
        }
    } else {
        lemma_element_kept(t, here, leaf, value);
        lemma_element_apart(t, here, leaf, value);
    }
}

/// An answer leaves answers that hang together hanging together, whether its
/// path was there or is made.
pub proof fn law_answer_leaves_answers_together(
    s: SessionModel,
    root: NodeId,
    path: Seq<char>,
    value: Seq<char>,
)
    requires
        s.wf(),
        s.instance.hangs_together(root),
        s.instance.nodes.len() + split_on(path, '/').len() < usize::MAX,
    ensures
        s.set(path, value) matches Ok(t) ==> t.hangs_together(root),
{
    let t = s.instance;
    lemma_node_in(t, path, s.env());
    match node_at(t, path, s.env()) {
        Some(n) => t.law_values_leave_it_together(root, n, value),
        None => {
            let all = split_on(path, '/');
            let parts = not_empty(all);
            lemma_not_empty_shorter(all);
            if parts.len() > 0 && s.set(path, value) is Ok {
                let above = parts.drop_last();
                let below = if above.len() > 0 && t.name(root) == above[0] {
                    above.skip(1)
                } else {
                    above
                };
                t.lemma_root_is_none(root);
                lemma_grown_together(t, root, root, below, 0, parts.last(), value);
                grown_along(t, root, below, 0, parts.last(), value).lemma_reindexed_together(root);
            }
        },
    }
}

pub proof fn lemma_not_empty_shorter(s: Seq<Seq<char>>)
    ensures
        not_empty(s).len() <= s.len(),
    decreases s.len(),
{
    if s.len() > 0 {
        lemma_not_empty_shorter(s.drop_last());
    }
}

/// What was put down of answers is a document of its own.
proof fn lemma_put_down(t: Tree, root: NodeId)
    requires
        t.wf(),
        t.root == Some(root),
        is_writable(t, root),
        t.size(root) <= usize::MAX,
    ensures
        t.subtree(root).as_read(),
        t.subtree(root).is_copy(NodeId(0), t, root),
{
    let copy = t.subtree(root);
    t.law_subtree_is_a_copy(root);
    law_written_reads_back(t, root);
    let e = Tree::empty();
    assert(e.wf()) by {
        assert(e.ranked(Ranking { of: Seq::empty(), bound: 0 }));
    }
    e.lemma_adopted_linked(t, root);
    e.lemma_adopted(e, t, root);
    let adopted = e.adopted(t, root);
    let rooted = Tree { root: Some(NodeId(0)), ..adopted };
    adopted.lemma_rerooted_wf(Some(NodeId(0)), adopted.order);
    assert(rooted == Tree { root: Some(NodeId(0)), order: adopted.order, ..adopted });
    rooted.law_reindexed_once();
    assert(copy == rooted.reindexed());
    law_documents_are_laid_out(document_text(t), false, copy);
}

/// The answer at a path is the same in documents that are alike.
proof fn lemma_same_answer(
    c: Tree,
    t: Tree,
    m: Map<NodeId, NodeId>,
    path: Seq<char>,
    env: Surroundings,
)
    requires
        alike(c, t, m),
        has_no_tables(env),
    ensures
        answer_at(c, path, env) == answer_at(t, path, env),
{
    if let Ok(e) = parse_model(path) {
        let root = c.root->0;
        law_evaluation_is_the_same_in_likes(e, c, t, m, at(root), env);
        assert(here_in(m, at(root)) == at(m[root]));
        if let Ok(ValueModel::NodeSet(nodes)) = eval(e, c, at(root), env) {
            let others = renamed(m, nodes);
            assert forall|i: int| 0 <= i < nodes.len() implies c.has(#[trigger] nodes[i]) && t.has(
                others[i],
            ) by {
                assert(m.dom().contains(nodes[i]));
                lemma_text(c, t, m, nodes[i]);
            }
            lemma_present_all(c, nodes);
            lemma_present_all(t, others);
            if nodes.len() > 0 {
                assert(m.dom().contains(nodes[0]));
                lemma_text(c, t, m, nodes[0]);
                assert(others[0] == m[nodes[0]]);
            }
        }
    }
}

/// A session that was put down is picked up with the answers it had: for
/// every path it answers as before.
pub proof fn law_resumed_session_answers_the_same(
    xform: Seq<char>,
    started_with: SessionModel,
    s: SessionModel,
    root: NodeId,
    path: Seq<char>,
)
    requires
        started(xform, s.today, s.now) == Ok::<SessionModel, Seq<char>>(started_with),
        s.form == started_with.form,
        s.templates == started_with.templates,
        s.wf(),
        can_be_put_down(s.instance, root),
    ensures
        resumed(xform, document_text(s.instance), s.today, s.now) is Ok,
        resumed(xform, document_text(s.instance), s.today, s.now)->Ok_0.get(path) == s.get(path),
{
    let t = s.instance;
    let copy = t.subtree(root);
    lemma_together_fits(t, root);
    lemma_put_down(t, root);
    law_copies_are_alike(copy, t, root);
    lemma_copy_unmarked(copy, t, root);
    law_saved_session_resumes(xform, started_with, s, root);
    let m = originals(copy, t, root);
    let env = s.env();
    assert forall|id: Seq<char>| (#[trigger] (env.secondary)(id)) is None by {}
    lemma_same_answer(copy, t, m, path, env);
}

/// Answers with others given one after another, the first `k` of a list.
pub open spec fn answered_with(
    t: Tree,
    answers: Seq<(Seq<char>, Seq<char>)>,
    k: int,
    env: Surroundings,
) -> Tree
    decreases k,
{
    if k <= 0 {
        t
    } else {
        let before = answered_with(t, answers, k - 1, env);
        match answered(before, answers[k - 1].0, answers[k - 1].1, env) {
            Ok(after) => after,
            Err(_) => before,
        }
    }
}

/// Whether answers are given to questions that are there: each path looks at
/// names and places, and leads to a node that holds nothing but its value,
/// and each answer is empty or says something.
pub open spec fn answer_questions(
    t: Tree,
    answers: Seq<(Seq<char>, Seq<char>)>,
    env: Surroundings,
) -> bool {
    forall|i: int|
        0 <= i < answers.len() ==> {
            &&& is_address((#[trigger] answers[i]).0)
            &&& node_at(t, answers[i].0, env) matches Some(n) && t.children(n).len() == 0
            &&& answers[i].1.len() == 0 || !is_blank(answers[i].1)
        }
}

proof fn lemma_answered_with(
    t: Tree,
    root: NodeId,
    answers: Seq<(Seq<char>, Seq<char>)>,
    k: int,
    env: Surroundings,
)
    requires
        can_be_put_down(t, root),
        answer_questions(t, answers, env),
        0 <= k <= answers.len(),
    ensures
        can_be_put_down(answered_with(t, answers, k, env), root),
        same_shape(t, answered_with(t, answers, k, env)),
    decreases k,
{
    if k > 0 {
        lemma_answered_with(t, root, answers, k - 1, env);
        let before = answered_with(t, answers, k - 1, env);
        let (path, value) = answers[k - 1];
        assert(is_address(answers[k - 1].0));
        lemma_nodes_same(t, before, path, env);
        lemma_node_in(before, path, env);
        let n = node_at(before, path, env)->0;
        assert(before.nodes[n.0 as int].children == t.nodes[n.0 as int].children);
        law_answer_can_be_put_down(before, root, n, value);
    }
}

proof fn lemma_applied_put_down(
    t: Tree,
    root: NodeId,
    a: Applied,
    computed: Seq<(Seq<char>, Seq<char>)>,
    k: int,
    env: Surroundings,
)
    requires
        t.wf(),
        answer_questions(t, computed, env),
        0 <= k <= computed.len(),
        can_be_put_down(a.tree, root),
        same_shape(t, a.tree),
    ensures
        can_be_put_down(applied_from(a, computed, k, env).tree, root),
    decreases computed.len() - k,
{
    if k < computed.len() {
        let (path, value) = computed[k];
        assert(is_address(computed[k].0));
        lemma_nodes_same(t, a.tree, path, env);
        lemma_node_in(a.tree, path, env);
        let n = node_at(a.tree, path, env)->0;
        assert(a.tree.nodes[n.0 as int].children == t.nodes[n.0 as int].children);
        law_answer_can_be_put_down(a.tree, root, n, value);
        let next = if answer_at(a.tree, path, env) == value {
            a
        } else {
            Applied {
                tree: a.tree.with_value(n, value),
                calculated: with_entry(a.calculated, path, value),
            }
        };
        lemma_applied_put_down(t, root, next, computed, k + 1, env);
    }
}

/// A recompute leaves answers such that they can be put down, where what it
/// calculates answers questions, each with nothing or with a text that says
/// something.
pub proof fn law_recompute_can_be_put_down(s: SessionModel, root: NodeId)
    requires
        s.wf(),
        can_be_put_down(s.instance, root),
        answer_questions(
            s.instance,
            form_calculations(s.form, s.instance, s.today, s.now).computed,
            s.env(),
        ),
    ensures
        can_be_put_down(s.applied().tree, root),
{
    lemma_applied_put_down(
        s.instance,
        root,
        Applied { tree: s.instance, calculated: Seq::empty() },
        form_calculations(s.form, s.instance, s.today, s.now).computed,
        0,
        s.env(),
    );
}

/// A form can be put down and picked up: whatever answers its questions were
/// given since it was started, what it would send is resumed without an
/// error, and the session that is resumed gives the same answer at every
/// path.
pub proof fn law_put_down_and_picked_up(
    xform: Seq<char>,
    blank: Tree,
    s: SessionModel,
    answers: Seq<(Seq<char>, Seq<char>)>,
    path: Seq<char>,
)
    requires
        blank_of(xform) == Ok::<Tree, Seq<char>>(blank),
        blank.hangs_together(NodeId(0)),
        is_writable(blank, NodeId(0)),
        started(xform, s.today, s.now) == Ok::<SessionModel, Seq<char>>(s),
        s.wf(),
        answer_questions(s.instance, answers, s.env()),
    ensures
        ({
            let now = SessionModel {
                instance: answered_with(s.instance, answers, answers.len() as int, s.env()),
                ..s
            };
            let saved = document_text(now.instance);
            &&& resumed(xform, saved, s.today, s.now) is Ok
            &&& resumed(xform, saved, s.today, s.now)->Ok_0.get(path) == now.get(path)
        }),
{
    let root = NodeId(0);
    law_started_session_can_be_put_down(xform, s.today, s.now, blank, s);
    lemma_answered_with(s.instance, root, answers, answers.len() as int, s.env());
    let now = SessionModel {
        instance: answered_with(s.instance, answers, answers.len() as int, s.env()),
        ..s
    };
    law_resumed_session_answers_the_same(xform, s, now, root, path);
}

/// A session whose answers lie as a document does that was just read, as
/// they do where no row came or went since, is picked up as it was put down.
/// So whatever it is asked it answers as before, for every path.
pub proof fn law_resumed_session_is_the_same(
    xform: Seq<char>,
    started_with: SessionModel,
    s: SessionModel,
    path: Seq<char>,
)
    requires
        started(xform, s.today, s.now) == Ok::<SessionModel, Seq<char>>(started_with),
        s.form == started_with.form,
        s.templates == started_with.templates,
        s.wf(),
        s.instance.as_read(),
        is_writable(s.instance, NodeId(0)),
        templates_from(s.instance, s.instance.descendants(NodeId(0)), 0).len() == 0,
    ensures
        resumed(xform, document_text(s.instance), s.today, s.now) == Ok::<SessionModel, Seq<char>>(
            s,
        ),
        resumed(xform, document_text(s.instance), s.today, s.now)->Ok_0.get(path) == s.get(path),
{
    let t = s.instance;
    let root = NodeId(0);
    let copy = t.subtree(root);
    t.lemma_size_fits(root);
    lemma_put_down(t, root);
    t.law_copies_of_documents_are_the_same(copy);
    law_saved_session_resumes(xform, started_with, s, root);
}

} // verus!
