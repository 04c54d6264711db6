//! A submission inside the model that a form builds around it.

use crate::eval::frame::same_shape;
use crate::rules::form::{
    lone_element, model_of, tables_wf, with_document, with_tables, FormModel, MODEL_ROOT,
};
use crate::rules::settling::{
    document_size, lemma_first_element, lemma_with_document, lemma_with_tables, model_size,
    tables_size,
};
use crate::tree::{bare_node, NodeId, NodeKind, NodeModel, Tree};
use vstd::prelude::*;

verus! {

// ---------------------------------------------------------------------------
// Copies of documents that differ in values
// ---------------------------------------------------------------------------

proof fn lemma_copies_shape(
    a: Tree,
    b: Tree,
    element: NodeId,
    t: Tree,
    u: Tree,
    s: Seq<NodeId>,
)
    requires
        same_shape(a, b),
        same_shape(t, u),
        t.all_in(s),
        a.has(element),
        a.nodes.len() + s.len() <= usize::MAX,
    ensures
        same_shape(a.with_copies(element, t, s), b.with_copies(element, u, s)),
        a.with_copies(element, t, s).nodes.len() == a.nodes.len() + s.len(),
    decreases s.len(),
{
    if s.len() > 0 {
        let d = s.drop_last();
        assert forall|i: int| 0 <= i < d.len() implies t.has(#[trigger] d[i]) by {
            assert(t.has(s[i]));
        }
        lemma_copies_shape(a, b, element, t, u, d);
        let x = a.with_copies(element, t, d);
        let y = b.with_copies(element, u, d);
        let last = s[s.len() - 1];
        assert(t.has(last));
        assert(u.nodes[last.0 as int].name == t.nodes[last.0 as int].name);
        assert(y.nodes[element.0 as int].attributes == x.nodes[element.0 as int].attributes);
    }
}

proof fn lemma_adopted_shape(a: Tree, b: Tree, t: Tree, u: Tree, n: NodeId)
    requires
        same_shape(a, b),
        same_shape(t, u),
        t.wf(),
        u.wf(),
        t.has(n),
        a.nodes.len() + t.size(n) <= usize::MAX,
    ensures
        same_shape(a.adopted(t, n), b.adopted(u, n)),
    decreases t.height(n), t.children(n).len() + 1,
{
    let id = NodeId(a.nodes.len() as usize);
    assert(u.nodes[n.0 as int].name == t.nodes[n.0 as int].name);
    assert(u.nodes[n.0 as int].attributes == t.nodes[n.0 as int].attributes);
    t.lemma_children_in(n);
    let x = a.grown(bare_node(NodeKind::Element, t.name(n), t.value(n)));
    let y = b.grown(bare_node(NodeKind::Element, u.name(n), u.value(n)));
    lemma_copies_shape(x, y, id, t, u, t.attributes(n));
    lemma_adopted_below_shape(
        x.with_copies(id, t, t.attributes(n)),
        y.with_copies(id, u, u.attributes(n)),
        t,
        u,
        n,
        0,
        id,
    );
}

proof fn lemma_adopted_below_shape(
    a: Tree,
    b: Tree,
    t: Tree,
    u: Tree,
    n: NodeId,
    i: int,
    id: NodeId,
)
    requires
        same_shape(a, b),
        same_shape(t, u),
        t.wf(),
        u.wf(),
        t.has(n),
        a.has(id),
        0 <= i,
        a.nodes.len() + t.size_below(n, i) <= usize::MAX,
    ensures
        same_shape(a.adopted_below(t, n, i, id), b.adopted_below(u, n, i, id)),
    decreases t.height(n), t.children(n).len() - i,
{
    assert(u.nodes[n.0 as int].children == t.nodes[n.0 as int].children);
    if i < t.children(n).len() {
        let child = t.children(n)[i];
        t.lemma_ranking();
        t.lemma_children_in(n);
        assert(t.nodes[n.0 as int].children[i] == child);
        assert(t.has(child));
        lemma_adopted_shape(a, b, t, u, child);
        a.lemma_adopted(a, t, child);
        let c = NodeId(a.nodes.len() as usize);
        let x = a.adopted(t, child);
        let y = b.adopted(u, child);
        assert(y.nodes[id.0 as int].children == x.nodes[id.0 as int].children);
        assert(same_shape(x.appended(id, c), y.appended(id, c)));
        lemma_adopted_below_shape(x.appended(id, c), y.appended(id, c), t, u, n, i + 1, id);
    }
}

/// Whether a tree is another with nodes added that hold what some nodes of a
/// source do, one after another.
spec fn holds_after(r: Tree, a: Tree, t: Tree, v: Seq<NodeId>) -> bool {
    &&& r.nodes.len() == a.nodes.len() + v.len()
    &&& forall|j: int|
        0 <= j < a.nodes.len() ==> (#[trigger] r.nodes[j]).value == a.nodes[j].value
    &&& forall|j: int|
        a.nodes.len() <= j < r.nodes.len() ==> (#[trigger] r.nodes[j]).value == t.value(
            v[j - a.nodes.len()],
        )
}

proof fn lemma_copies_hold(a: Tree, element: NodeId, t: Tree, s: Seq<NodeId>)
    requires
        a.has(element),
        a.nodes.len() + s.len() <= usize::MAX,
    ensures
        holds_after(a.with_copies(element, t, s), a, t, s),
    decreases s.len(),
{
    if s.len() > 0 {
        let d = s.drop_last();
        lemma_copies_hold(a, element, t, d);
        let r = a.with_copies(element, t, s);
        let x = a.with_copies(element, t, d);
        assert forall|j: int| a.nodes.len() <= j < r.nodes.len() implies (
        #[trigger] r.nodes[j]).value == t.value(s[j - a.nodes.len()]) by {
            if j < x.nodes.len() {
                assert(r.nodes[j].value == x.nodes[j].value);
                assert(d[j - a.nodes.len()] == s[j - a.nodes.len()]);
            }
        }
    }
}

proof fn lemma_adopted_holds(a: Tree, t: Tree, n: NodeId)
    requires
        t.wf(),
        t.has(n),
        a.nodes.len() + t.size(n) <= usize::MAX,
    ensures
        holds_after(a.adopted(t, n), a, t, t.visit(n, true)),
    decreases t.height(n), t.children(n).len() + 1,
{
    let id = NodeId(a.nodes.len() as usize);
    let ids = t.attributes(n);
    let x = a.grown(bare_node(NodeKind::Element, t.name(n), t.value(n)));
    lemma_copies_hold(x, id, t, ids);
    let w = x.with_copies(id, t, ids);
    lemma_adopted_below_holds(w, t, n, 0, id);
    let r = a.adopted(t, n);
    let v = t.visit(n, true);
    let rest = t.below(n, 0, true);
    assert(v == seq![n] + ids + rest);
    assert forall|j: int| a.nodes.len() <= j < r.nodes.len() implies (#[trigger] r.nodes[j]).value
        == t.value(v[j - a.nodes.len()]) by {
        let k = j - a.nodes.len();
        if j < w.nodes.len() {
            assert(r.nodes[j].value == w.nodes[j].value);
            if k > 0 {
                assert(w.nodes[j].value == t.value(ids[k - 1]));
                assert(v[k] == ids[k - 1]);
            } else {
                assert(w.nodes[j].value == x.nodes[j].value);
            }
        } else {
            assert(v[k] == rest[j - w.nodes.len()]);
        }
    }
    assert forall|j: int| 0 <= j < a.nodes.len() implies (#[trigger] r.nodes[j]).value
        == a.nodes[j].value by {
        assert(r.nodes[j].value == w.nodes[j].value);
        assert(w.nodes[j].value == x.nodes[j].value);
    }
}

proof fn lemma_adopted_below_holds(a: Tree, t: Tree, n: NodeId, i: int, id: NodeId)
    requires
        t.wf(),
        t.has(n),
        a.has(id),
        0 <= i,
        a.nodes.len() + t.size_below(n, i) <= usize::MAX,
    ensures
        holds_after(a.adopted_below(t, n, i, id), a, t, t.below(n, i, true)),
    decreases t.height(n), t.children(n).len() - i,
{
    if i < t.children(n).len() {
        let child = t.children(n)[i];
        t.lemma_ranking();
        t.lemma_children_in(n);
        assert(t.nodes[n.0 as int].children[i] == child);
        assert(t.has(child));
        t.lemma_size_listed(child);
        lemma_adopted_holds(a, t, child);
        let c = NodeId(a.nodes.len() as usize);
        let x = a.adopted(t, child);
        let y = x.appended(id, c);
        assert forall|j: int| 0 <= j < x.nodes.len() implies (#[trigger] y.nodes[j]).value
            == x.nodes[j].value by {}
        lemma_adopted_below_holds(y, t, n, i + 1, id);
        let r = a.adopted_below(t, n, i, id);
        let first = t.visit(child, true);
        let rest = t.below(n, i + 1, true);
        let v = t.below(n, i, true);
        assert(v == first + rest);
        assert forall|j: int| a.nodes.len() <= j < r.nodes.len() implies (
        #[trigger] r.nodes[j]).value == t.value(v[j - a.nodes.len()]) by {
            let k = j - a.nodes.len();
            if k < first.len() {
                assert(r.nodes[j].value == y.nodes[j].value);
                assert(y.nodes[j].value == x.nodes[j].value);
                assert(v[k] == first[k]);
            } else {
                assert(v[k] == rest[k - first.len()]);
            }
        }
        assert forall|j: int| 0 <= j < a.nodes.len() implies (#[trigger] r.nodes[j]).value
            == a.nodes[j].value by {
            assert(r.nodes[j].value == y.nodes[j].value);
            assert(y.nodes[j].value == x.nodes[j].value);
        }
    }
}

// ---------------------------------------------------------------------------
// The model of answers with another value
// ---------------------------------------------------------------------------

/// A document is added to a tree in the same way whatever its nodes hold.
proof fn lemma_document_added(a: Tree, y: NodeId, value: Seq<char>, source: Tree)
    requires
        a.has(y),
        a.nodes.len() > 0,
        source.wf(),
        a.nodes.len() + document_size(source) <= usize::MAX,
    ensures
        with_document(a.with_value(y, value), source) == with_document(a, source).with_value(
            y,
            value,
        ),
        with_document(a, source).nodes.len() == a.nodes.len() + document_size(source),
{
    if let Some(root) = source.root {
        let b = a.with_value(y, value);
        a.lemma_adopted(b, source, root);
        let id = NodeId(a.nodes.len() as usize);
        let p = a.adopted(source, root);
        let q = b.adopted(source, root);
        assert(q.nodes =~= p.with_value(y, value).nodes) by {
            assert forall|j: int| 0 <= j < q.nodes.len() implies q.nodes[j] == p.with_value(
                y,
                value,
            ).nodes[j] by {
                if j < a.nodes.len() {
                    assert(p.nodes[j] == a.nodes[j]);
                    assert(q.nodes[j] == b.nodes[j]);
                } else {
                    assert(p.nodes[j] == q.nodes[j]);
                }
            }
        }
        assert(q == p.with_value(y, value));
        assert(q.appended(NodeId(0), id).nodes =~= p.appended(NodeId(0), id).with_value(
            y,
            value,
        ).nodes);
    }
}

proof fn lemma_tables_added(
    a: Tree,
    y: NodeId,
    value: Seq<char>,
    tables: Seq<(Seq<char>, Tree)>,
    i: int,
)
    requires
        a.has(y),
        a.nodes.len() > 0,
        tables_wf(tables),
        0 <= i,
        a.nodes.len() + tables_size(tables, i) <= usize::MAX,
    ensures
        with_tables(a.with_value(y, value), tables, i) == with_tables(a, tables, i).with_value(
            y,
            value,
        ),
        with_tables(a, tables, i).nodes.len() >= a.nodes.len(),
    decreases tables.len() - i,
{
    if i < tables.len() {
        assert(tables[i].1.wf());
        lemma_document_added(a, y, value, tables[i].1);
        lemma_tables_added(with_document(a, tables[i].1), y, value, tables, i + 1);
    }
}

/// Where in the model of a submission the node is that the submission lists
/// at `k`.
pub open spec fn place_in_model(k: int) -> NodeId {
    NodeId((1 + k) as usize)
}

/// The model of answers in which a node holds another value is the model of
/// those answers in which the like of that node does.
pub proof fn lemma_model_written(
    form: FormModel,
    t: Tree,
    root: NodeId,
    k: int,
    value: Seq<char>,
)
    requires
        form.wf(),
        t.wf(),
        t.root == Some(root),
        t.visit(root, true).no_duplicates(),
        model_size(form, t) <= usize::MAX,
        0 <= k < t.visit(root, true).len(),
    ensures
        model_of(form, t).has(place_in_model(k)),
        model_of(form, t.with_value(t.visit(root, true)[k], value)) == model_of(
            form,
            t,
        ).with_value(place_in_model(k), value),
        t.with_value(t.visit(root, true)[k], value).visit(root, true) == t.visit(root, true),
        model_size(form, t.with_value(t.visit(root, true)[k], value)) == model_size(form, t),
{
    let v = t.visit(root, true);
    let x = v[k];
    let u = t.with_value(x, value);
    let y = place_in_model(k);
    let first = lone_element(MODEL_ROOT@);
    assert(t.has(root));
    t.lemma_visit_in(root, true);
    assert(t.has(v[k]));
    t.lemma_with_value_wf(x, value);
    t.lemma_visit_shape(u, root);
    t.lemma_size_listed(root);
    u.lemma_size_listed(root);
    lemma_first_element();
    let a = first.adopted(t, root);
    let b = first.adopted(u, root);
    assert(same_shape(t, u));
    assert(same_shape(first, first));
    lemma_adopted_shape(first, first, t, u, root);
    lemma_adopted_holds(first, t, root);
    lemma_adopted_holds(first, u, root);
    assert(y.0 == 1 + k);
    assert(b.nodes =~= a.with_value(y, value).nodes) by {
        assert forall|j: int| 0 <= j < b.nodes.len() implies b.nodes[j] == a.with_value(
            y,
            value,
        ).nodes[j] by {
            assert(b.nodes[j] == (NodeModel { value: b.nodes[j].value, ..a.nodes[j] }));
            if j >= 1 {
                assert(a.nodes[j].value == t.value(v[j - 1]));
                assert(b.nodes[j].value == u.value(v[j - 1]));
                assert(t.has(v[j - 1]));
                if j - 1 != k {
                    assert(v[j - 1] != v[k]);
                    assert(u.value(v[j - 1]) == t.value(v[j - 1]));
                }
            } else {
                assert(a.nodes[j].value == first.nodes[j].value);
                assert(b.nodes[j].value == first.nodes[j].value);
            }
        }
    }
    assert(b == a.with_value(y, value));
    let id = NodeId(1);
    let p = a.appended(NodeId(0), id);
    let q = b.appended(NodeId(0), id);
    assert(q.nodes =~= p.with_value(y, value).nodes);
    assert(q == p.with_value(y, value));
    assert(p == with_document(first, t));
    assert(q == with_document(first, u));
    lemma_tables_added(p, y, value, form.tables, 0);
    lemma_with_document(first, t);
    lemma_with_tables(p, form.tables, 0);
    let third = with_tables(p, form.tables, 0);
    third.lemma_with_value_wf(y, value);
    third.lemma_visit_shape(third.with_value(y, value), NodeId(0));
    assert(third.with_value(y, value).reindexed().order =~= third.reindexed().order);
}

/// What the model of a submission holds, node for node.
pub proof fn lemma_model_holds(form: FormModel, t: Tree, root: NodeId, k: int)
    requires
        form.wf(),
        t.wf(),
        t.root == Some(root),
        t.visit(root, true).no_duplicates(),
        model_size(form, t) <= usize::MAX,
        0 <= k < t.visit(root, true).len(),
    ensures
        model_of(form, t).value(place_in_model(k)) == t.value(t.visit(root, true)[k]),
{
    let x = t.visit(root, true)[k];
    lemma_model_written(form, t, root, k, t.value(x));
    t.lemma_visit_in(root, true);
    assert(t.has(t.visit(root, true)[k]));
    assert(t.with_value(x, t.value(x)).nodes =~= t.nodes);
}

} // verus!
