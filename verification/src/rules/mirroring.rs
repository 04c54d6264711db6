//! The answers stand in the model of a form as they stand by themselves.

use crate::rules::addresses::{lemma_line, lemma_place, line_to};
use crate::rules::form::{
    lone_element, model_of, tables_wf, with_document, with_tables, FormModel, MODEL_ROOT,
    MODEL_ROOT_PATH,
};
use crate::rules::live::place_of;
use crate::rules::modelling::place_in_model;
use crate::rules::settling::{
    lemma_first_element, lemma_model_rooted, lemma_with_document, model_size, tables_size,
};
use crate::text::{join, lemma_join_first};
use crate::tree::mirroring::{lemma_adopted_mirrors, mirror_at};
use crate::tree::standing::{lemma_distinct_children, stands_under};
use crate::tree::{NodeId, NodeModel, Tree};
use vstd::prelude::*;

verus! {

/// What is added behind a document leaves all of it but the first node as it
/// is, and that one's name and first child.
proof fn lemma_tables_behind(a: Tree, tables: Seq<(Seq<char>, Tree)>, i: int)
    requires
        a.nodes.len() > 0,
        a.children(NodeId(0)).len() > 0,
        tables_wf(tables),
        0 <= i,
        a.nodes.len() + tables_size(tables, i) <= usize::MAX,
    ensures
        ({
            let r = with_tables(a, tables, i);
            &&& r.nodes.len() >= a.nodes.len()
            &&& r.children(NodeId(0)).len() > 0
            &&& r.children(NodeId(0))[0] == a.children(NodeId(0))[0]
            &&& forall|j: int| 0 < j < a.nodes.len() ==> #[trigger] r.nodes[j] == a.nodes[j]
        }),
    decreases tables.len() - i,
{
    if i < tables.len() {
        let source = tables[i].1;
        assert(source.wf());
        let b = with_document(a, source);
        if let Some(root) = source.root {
            a.lemma_adopted(a, source, root);
            let x = a.adopted(source, root);
            assert(x.nodes[0] == a.nodes[0]);
            assert forall|j: int| 0 < j < a.nodes.len() implies #[trigger] b.nodes[j]
                == a.nodes[j] by {
                assert(x.nodes[j] == a.nodes[j]);
            }
        }
        lemma_tables_behind(b, tables, i + 1);
        let r = with_tables(a, tables, i);
        assert forall|j: int| 0 < j < a.nodes.len() implies #[trigger] r.nodes[j]
            == a.nodes[j] by {
            assert(r.nodes[j] == b.nodes[j]);
        }
    }
}

/// The model mirrors the answers from its second node on.
proof fn lemma_model_mirrors(form: FormModel, t: Tree, root: NodeId)
    requires
        form.wf(),
        t.hangs_together(root),
        model_size(form, t) <= usize::MAX,
    ensures
        model_of(form, t).nodes.len() > t.visit(root, true).len(),
        model_of(form, t).children(NodeId(0)).len() > 0,
        model_of(form, t).children(NodeId(0))[0] == NodeId(1),
        forall|j: int|
            0 <= j < t.visit(root, true).len() ==> #[trigger] mirror_at(
                model_of(form, t),
                1,
                t,
                t.visit(root, true),
                j,
            ),
{
    let v = t.visit(root, true);
    let first = lone_element(MODEL_ROOT@);
    let m = model_of(form, t);
    lemma_first_element();
    lemma_with_document(first, t);
    assert(t.has(root));
    lemma_adopted_mirrors(first, t, root);
    let a = first.adopted(t, root);
    let p = with_document(first, t);
    assert(a.nodes[0] == first.nodes[0]);
    assert(v.len() > 0 && v[0] == root);
    assert(p.children(NodeId(0))[0] == NodeId(1));
    lemma_tables_behind(p, form.tables, 0);
    assert forall|j: int| 0 <= j < v.len() implies #[trigger] mirror_at(m, 1, t, v, j) by {
        assert(mirror_at(a, 1, t, v, j));
        assert(m.nodes[1 + j] == p.nodes[1 + j]);
        assert(p.nodes[1 + j] == (NodeModel { parent: p.nodes[1 + j].parent, ..a.nodes[1 + j] }));
    }
}

proof fn lemma_named_alike(
    t: Tree,
    u: Tree,
    a: Seq<NodeId>,
    b: Seq<NodeId>,
    name: Seq<char>,
    k: int,
)
    requires
        a.len() == b.len(),
        forall|i: int| 0 <= i < a.len() ==> t.name(#[trigger] a[i]) == u.name(b[i]),
    ensures
        t.named_among(a, name, k) == u.named_among(b, name, k),
    decreases k,
{
    if 0 < k <= a.len() {
        lemma_named_alike(t, u, a, b, name, k - 1);
        assert(t.name(a[k - 1]) == u.name(b[k - 1]));
    }
}

/// Whether the answers are told from the lookup tables by their name.
pub open spec fn is_named_apart(form: FormModel, t: Tree, root: NodeId) -> bool {
    let m = model_of(form, t);
    let all = m.children(NodeId(0));
    m.named_among(all, t.name(root), all.len() as int) <= 1
}

/// The steps to an element of the answers are the same in the model, below
/// its root.
proof fn lemma_model_line(form: FormModel, t: Tree, root: NodeId, n: NodeId) -> (k: int)
    requires
        form.wf(),
        t.hangs_together(root),
        model_size(form, t) <= usize::MAX,
        is_named_apart(form, t, root),
        t.has(n),
        stands_under(t, root, n),
    ensures
        0 <= k < t.visit(root, true).len(),
        t.visit(root, true)[k] == n,
        model_of(form, t).has(place_in_model(k)),
        model_of(form, t).step_texts(line_to(model_of(form, t), place_in_model(k))) == seq![
            MODEL_ROOT@,
        ] + t.step_texts(line_to(t, n)),
    decreases t.ranking().bound - t.height(n),
{
    let m = model_of(form, t);
    let v = t.visit(root, true);
    lemma_model_rooted(form, t);
    lemma_model_mirrors(form, t, root);
    assert(v.len() > 0 && v[0] == root);
    let top = NodeId(0);
    if n == root {
        let c = NodeId(1);
        assert(place_in_model(0) == c);
        assert(m.nodes[0].children[0] == c);
        assert(m.parent(c) == Some(top));
        assert(mirror_at(m, 1, t, v, 0));
        assert(m.ancestors(top) == Seq::<NodeId>::empty());
        assert(m.ancestors(c) == seq![top] + m.ancestors(top));
        assert(line_to(m, c) =~= seq![top, c]);
        assert(t.ancestors(n) == Seq::<NodeId>::empty());
        assert(line_to(t, n) =~= seq![n]);
        assert(m.step_text(top) == MODEL_ROOT@);
        assert(m.step_text(c) == t.step_text(n));
        assert(m.step_texts(line_to(m, c)) =~= seq![MODEL_ROOT@] + t.step_texts(line_to(t, n)));
        0
    } else {
        let p = t.parent(n)->0;
        t.lemma_parent(n);
        let kp = lemma_model_line(form, t, root, p);
        let cp = place_in_model(kp);
        assert(mirror_at(m, 1, t, v, kp));
        let all = t.children(p);
        let there = m.children(cp);
        let i = choose|i: int| 0 <= i < all.len() && all[i] == n;
        assert(m.nodes[1 + kp].children[i] == there[i]);
        let k = there[i].0 - 1;
        let c = there[i];
        assert(place_in_model(k) == c);
        assert(m.parent(c) == Some(NodeId((1 + kp) as usize)));
        assert forall|j: int| 0 <= j < there.len() implies m.name(#[trigger] there[j]) == t.name(
            all[j],
        ) by {
            assert(m.nodes[1 + kp].children[j] == there[j]);
            assert(mirror_at(m, 1, t, v, there[j].0 - 1));
        }
        lemma_named_alike(m, t, there, all, t.name(n), all.len() as int);
        lemma_distinct_children(m, cp);
        lemma_distinct_children(t, p);
        lemma_place(there, i);
        lemma_place(all, i);
        lemma_named_alike(m, t, there, all, t.name(n), i + 1);
        assert(m.step_text(c) == t.step_text(n));
        m.lemma_parent(c);
        assert(m.ancestors(c) == seq![cp] + m.ancestors(cp));
        assert(t.ancestors(n) == seq![p] + t.ancestors(p));
        assert(line_to(m, c) =~= line_to(m, cp).push(c));
        assert(line_to(t, n) =~= line_to(t, p).push(n));
        assert(m.step_texts(line_to(m, c)) =~= m.step_texts(line_to(m, cp)).push(m.step_text(c)));
        assert(t.step_texts(line_to(t, n)) =~= t.step_texts(line_to(t, p)).push(t.step_text(n)));
        assert(m.step_texts(line_to(m, c)) =~= seq![MODEL_ROOT@] + t.step_texts(line_to(t, n)));
        k
    }
}

/// An element of the answers has in the model the address that it has by
/// itself, as the form writes it.
pub proof fn lemma_place_in_model(form: FormModel, t: Tree, root: NodeId, n: NodeId) -> (k: int)
    requires
        form.wf(),
        t.hangs_together(root),
        model_size(form, t) <= usize::MAX,
        is_named_apart(form, t, root),
        t.has(n),
        stands_under(t, root, n),
    ensures
        0 <= k < t.visit(root, true).len(),
        t.visit(root, true)[k] == n,
        place_of(model_of(form, t), place_in_model(k)) == t.address_of(n),
{
    let m = model_of(form, t);
    let k = lemma_model_line(form, t, root, n);
    let c = place_in_model(k);
    lemma_line(t, root, n);
    let rest = t.step_texts(line_to(t, n));
    lemma_join_first(MODEL_ROOT@, rest, "/"@);
    reveal_strlit("/");
    reveal_strlit("model");
    reveal_strlit("/model");
    assert(MODEL_ROOT_PATH@ =~= "/"@ + MODEL_ROOT@);
    let tail = "/"@ + join(rest, "/"@);
    assert(m.address_of(c) =~= MODEL_ROOT_PATH@ + tail);
    assert(m.address_of(c).skip(MODEL_ROOT_PATH@.len() as int) =~= tail);
    assert(m.address_of(c).subrange(0, MODEL_ROOT_PATH@.len() as int) =~= MODEL_ROOT_PATH@);
    k
}

} // verus!
