//! Which sessions can be put down and picked up again.

use crate::eval::frame::{lemma_below_same, lemma_sorted_same, same_shape};
use crate::eval::likeness::{alike, alike_at, known, lemma_descendants, renamed};
use crate::session::round_trip::{are_writable, is_name, is_writable, is_writable_element};
use crate::session::templates::{
    blank_of, blueprint, lifted, lifted_from, markers, markers_from, templates_from, unpositioned,
    Lifting,
};
use crate::session::{started, SessionModel};
use crate::table::with_entry;
use crate::text::is_blank;
use crate::tree::edit::without;
use crate::tree::listing::originals;
use crate::tree::standing::lemma_distinct_fit;
use crate::tree::{NodeId, Ranking, Tree};
use vstd::prelude::*;

verus! {

/// Whether none of the elements below a root is marked as a template.
pub open spec fn is_unmarked(t: Tree, root: NodeId) -> bool {
    forall|x: NodeId| #[trigger] t.descendants(root).contains(x) ==> markers(t, x).len() == 0
}

/// Whether answers can be put down and picked up again: they hang together
/// as a document, can be written, and none is marked as a template.
pub open spec fn can_be_put_down(t: Tree, root: NodeId) -> bool {
    &&& t.hangs_together(root)
    &&& is_writable(t, root)
    &&& is_unmarked(t, root)
}

// ---------------------------------------------------------------------------
// Size
// ---------------------------------------------------------------------------

/// What hangs together is no more than the arena it is in.
pub proof fn lemma_together_fits(t: Tree, root: NodeId)
    requires
        t.hangs_together(root),
    ensures
        t.size(root) <= usize::MAX,
{
    let s = t.visit(root, true);
    assert(t.has(root));
    t.lemma_listed_once(root);
    assert forall|i: int| 0 <= i < s.len() implies (#[trigger] s[i]).0 < t.nodes.len() by {
        assert(s.contains(s[i]));
        t.lemma_listed_below(root, s[i]);
    }
    lemma_distinct_fit(s, t.nodes.len() as int);
    t.lemma_size_listed(root);
}

// ---------------------------------------------------------------------------
// Markers
// ---------------------------------------------------------------------------

proof fn lemma_markers_alike(
    c: Tree,
    t: Tree,
    m: Map<NodeId, NodeId>,
    s: Seq<NodeId>,
    i: int,
)
    requires
        alike(c, t, m),
        known(m, s),
        0 <= i,
    ensures
        markers_from(t, renamed(m, s), i).len() == markers_from(c, s, i).len(),
    decreases s.len() - i,
{
    if i < s.len() {
        assert(m.dom().contains(s[i]));
        assert(alike_at(c, t, m, s[i]));
        lemma_markers_alike(c, t, m, s, i + 1);
    }
}

proof fn lemma_none_marked(t: Tree, s: Seq<NodeId>, i: int)
    requires
        0 <= i,
        forall|k: int| 0 <= k < s.len() ==> markers(t, #[trigger] s[k]).len() == 0,
    ensures
        templates_from(t, s, i).len() == 0,
    decreases s.len() - i,
{
    if i < s.len() {
        assert(markers(t, s[i]).len() == 0);
        lemma_none_marked(t, s, i + 1);
    }
}

/// A copy of what is unmarked is unmarked.
pub proof fn lemma_copy_unmarked(c: Tree, t: Tree, root: NodeId)
    requires
        alike(c, t, originals(c, t, root)),
        c.root == Some(NodeId(0)),
        t.root == Some(root),
        is_unmarked(t, root),
    ensures
        templates_from(c, c.descendants(NodeId(0)), 0).len() == 0,
{
    let m = originals(c, t, root);
    let s = c.descendants(NodeId(0));
    lemma_descendants(c, t, m, NodeId(0));
    assert forall|k: int| 0 <= k < s.len() implies markers(c, #[trigger] s[k]).len() == 0 by {
        let x = s[k];
        assert(m.dom().contains(s[k]));
        assert(alike_at(c, t, m, x));
        assert(renamed(m, s)[k] == m[x]);
        assert(t.descendants(root).contains(m[x]));
        lemma_markers_alike(c, t, m, c.attributes(x), 0);
    }
    lemma_none_marked(c, s, 0);
}

// ---------------------------------------------------------------------------
// Less of a tree
// ---------------------------------------------------------------------------

/// Whether a tree holds no more than another, and the same where it holds
/// anything: nodes may have lost children.
spec fn is_less_of(u: Tree, t: Tree) -> bool {
    &&& u.nodes.len() == t.nodes.len()
    &&& forall|k: int|
        0 <= k < t.nodes.len() ==> (#[trigger] u.nodes[k]).name == t.nodes[k].name
            && u.nodes[k].attributes == t.nodes[k].attributes
    &&& forall|p: NodeId, x: NodeId|
        t.has(p) && #[trigger] u.children(p).contains(x) ==> t.children(p).contains(x)
}

/// What lies below a child lies below its parent.
proof fn lemma_below_holds(t: Tree, n: NodeId, i: int, j: int, x: NodeId)
    requires
        t.wf(),
        t.has(n),
        0 <= i <= j < t.children(n).len(),
        t.visit(t.children(n)[j], false).contains(x),
    ensures
        t.below(n, i, false).contains(x),
    decreases j - i,
{
    let first = t.visit(t.children(n)[i], false);
    let rest = t.below(n, i + 1, false);
    let all = t.below(n, i, false);
    assert(all == first + rest);
    if i == j {
        let k = choose|k: int| 0 <= k < first.len() && first[k] == x;
        assert(all[k] == x);
    } else {
        lemma_below_holds(t, n, i + 1, j, x);
        let k = choose|k: int| 0 <= k < rest.len() && rest[k] == x;
        assert(all[first.len() + k] == x);
    }
}

proof fn lemma_less_visit(u: Tree, t: Tree, n: NodeId, x: NodeId)
    requires
        t.wf(),
        u.wf(),
        u.upright(),
        is_less_of(u, t),
        t.has(n),
        u.visit(n, false).contains(x),
    ensures
        t.visit(n, false).contains(x),
    decreases t.height(n), u.children(n).len() + 1,
{
    let s = u.visit(n, false);
    let r = t.visit(n, false);
    let k = choose|k: int| 0 <= k < s.len() && s[k] == x;
    if k == 0 {
        assert(r[0] == x);
    } else {
        assert(u.below(n, 0, false)[k - 1] == x);
        assert(u.below(n, 0, false).contains(x));
        lemma_less_below(u, t, n, 0, x);
        let b = t.below(n, 0, false);
        let j = choose|j: int| 0 <= j < b.len() && b[j] == x;
        assert(r[j + 1] == x);
    }
}

/// What is left below a node was below it, and has a parent.
proof fn lemma_less_below(u: Tree, t: Tree, n: NodeId, i: int, x: NodeId)
    requires
        t.wf(),
        u.wf(),
        u.upright(),
        is_less_of(u, t),
        t.has(n),
        0 <= i,
        u.below(n, i, false).contains(x),
    ensures
        t.below(n, 0, false).contains(x),
        u.parent(x) is Some,
    decreases t.height(n), u.children(n).len() - i,
{
    let s = u.below(n, i, false);
    let k = choose|k: int| 0 <= k < s.len() && s[k] == x;
    u.lemma_children_in(n);
    t.lemma_children_in(n);
    t.lemma_ranking();
    let child = u.children(n)[i];
    assert(u.nodes[n.0 as int].children[i] == child);
    assert(u.children(n).contains(child));
    assert(t.children(n).contains(child));
    let j = choose|j: int| 0 <= j < t.children(n).len() && t.children(n)[j] == child;
    assert(t.nodes[n.0 as int].children[j] == child);
    assert(t.has(t.children(n)[j]));
    let first = u.visit(child, false);
    if k < first.len() {
        assert(first[k] == x);
        assert(first.contains(x));
        lemma_less_visit(u, t, child, x);
        lemma_below_holds(t, n, 0, j, x);
        if k > 0 {
            assert(u.below(child, 0, false)[k - 1] == x);
            assert(u.below(child, 0, false).contains(x));
            lemma_less_below(u, t, child, 0, x);
        }
    } else {
        assert(u.below(n, i + 1, false)[k - first.len()] == x);
        assert(u.below(n, i + 1, false).contains(x));
        lemma_less_below(u, t, n, i + 1, x);
    }
}

pub proof fn lemma_child_writable(t: Tree, n: NodeId, i: int, j: int)
    requires
        t.wf(),
        t.has(n),
        0 <= i <= j < t.children(n).len(),
        are_writable(t, n, i),
    ensures
        is_writable(t, t.children(n)[j]),
    decreases j - i,
{
    if i < j {
        lemma_child_writable(t, n, i + 1, j);
    }
}

/// What can be written can be written where nodes have lost children, and
/// every node is still one that can be written.
proof fn lemma_writable_kept(u: Tree, t: Tree, n: NodeId)
    requires
        t.wf(),
        u.wf(),
        is_less_of(u, t),
        forall|k: NodeId| #[trigger]
            t.has(k) && is_writable_element(t, k) ==> is_writable_element(u, k),
        t.has(n),
        is_writable(t, n),
    ensures
        is_writable(u, n),
    decreases t.height(n), u.children(n).len() + 1,
{
    lemma_writable_below(u, t, n, 0);
}

proof fn lemma_writable_below(u: Tree, t: Tree, n: NodeId, i: int)
    requires
        t.wf(),
        u.wf(),
        is_less_of(u, t),
        forall|k: NodeId| #[trigger]
            t.has(k) && is_writable_element(t, k) ==> is_writable_element(u, k),
        t.has(n),
        are_writable(t, n, 0),
        0 <= i,
    ensures
        are_writable(u, n, i),
    decreases t.height(n), u.children(n).len() - i,
{
    if i < u.children(n).len() {
        let child = u.children(n)[i];
        assert(u.children(n).contains(child));
        assert(t.children(n).contains(child));
        let j = choose|j: int| 0 <= j < t.children(n).len() && t.children(n)[j] == child;
        t.lemma_ranking();
        t.lemma_children_in(n);
        assert(t.nodes[n.0 as int].children[j] == child);
        assert(t.has(t.children(n)[j]));
        lemma_child_writable(t, n, 0, j);
        lemma_writable_kept(u, t, child);
        lemma_writable_below(u, t, n, i + 1);
    }
}

// ---------------------------------------------------------------------------
// A session that starts
// ---------------------------------------------------------------------------

/// What is copied out of a tree hangs together.
pub proof fn lemma_subtree_together(t: Tree, n: NodeId)
    requires
        t.wf(),
        t.has(n),
        t.size(n) <= usize::MAX,
    ensures
        t.subtree(n).hangs_together(NodeId(0)),
{
    let e = Tree::empty();
    assert(e.wf()) by {
        assert(e.ranked(Ranking { of: Seq::empty(), bound: 0 }));
    }
    e.lemma_adopted_linked(t, n);
    e.lemma_adopted(e, t, n);
    e.lemma_adopted_apart(t, n);
    let adopted = e.adopted(t, n);
    let rooted = Tree { root: Some(NodeId(0)), ..adopted };
    adopted.lemma_rerooted_wf(Some(NodeId(0)), adopted.order);
    assert(rooted == Tree { root: Some(NodeId(0)), order: adopted.order, ..adopted });
    adopted.lemma_same_nodes_upright(rooted);
    assert forall|p: NodeId| #[trigger] rooted.has(p) implies rooted.attributes_apart(p) by {
        assert(adopted.has(p));
        assert(adopted.attributes_apart(p));
        let a = adopted.attributes(p);
        assert forall|k: int| 0 <= k < a.len() implies rooted.parent(
            #[trigger] rooted.attributes(p)[k],
        ) == Some(p) && rooted.children(rooted.attributes(p)[k]).len() == 0 && rooted.attributes(
            rooted.attributes(p)[k],
        ).len() == 0 && !rooted.children(p).contains(rooted.attributes(p)[k]) by {
            assert(adopted.parent(adopted.attributes(p)[k]) == Some(p));
        }
    }
    rooted.lemma_reindexed_together(NodeId(0));
}

/// What holds while templates are taken out of a tree, those before the one
/// at `i` being out.
spec fn is_lifting(u: Tree, t: Tree, root: NodeId, s: Seq<NodeId>, i: int) -> bool {
    &&& u.wf()
    &&& u.upright()
    &&& u.all_apart()
    &&& u.root == Some(root)
    &&& u.parent(root) is None
    &&& is_less_of(u, t)
    &&& forall|k: int| 0 <= k < t.nodes.len() ==> (#[trigger] u.nodes[k]).value == t.nodes[k].value
        && u.nodes[k].children.len() <= t.nodes[k].children.len()
    &&& forall|k: int| 0 <= k < i ==> u.parent(#[trigger] s[k]) is None
}

pub proof fn lemma_without_shorter(s: Seq<NodeId>, n: NodeId)
    ensures
        without(s, n).len() <= s.len(),
    decreases s.len(),
{
    if s.len() > 0 {
        lemma_without_shorter(s.drop_last(), n);
    }
}

proof fn lemma_lift_one(u: Tree, t: Tree, root: NodeId, s: Seq<NodeId>, i: int)
    requires
        t.wf(),
        is_lifting(u, t, root, s, i),
        0 <= i < s.len(),
        t.all_in(s),
        forall|k: int| 0 <= k < s.len() ==> !t.is_attribute(#[trigger] s[k]),
    ensures
        is_lifting(u.detached(s[i]), t, root, s, i + 1),
{
    let n = s[i];
    let v = u.detached(n);
    assert(t.has(s[i]));
    u.lemma_detached_wf(n);
    u.lemma_parent(n);
    u.lemma_detached_upright(n);
    if let Some(p) = u.parent(n) {
        assert(u.nodes[n.0 as int].parent == Some(p));
        if u.attributes(p).contains(n) {
            let k = choose|k: int| 0 <= k < u.attributes(p).len() && u.attributes(p)[k] == n;
            assert(u.nodes[p.0 as int].attributes == t.nodes[p.0 as int].attributes);
            assert(t.attributes(p)[k] == n);
            assert(t.is_attribute(s[i]));
        }
        u.lemma_detached_apart(p, n);
        lemma_without_shorter(u.children(p), n);
        assert forall|q: NodeId, x: NodeId|
            t.has(q) && #[trigger] v.children(q).contains(x) implies t.children(q).contains(x) by {
            if q == p {
                if p == n {
                    assert(v.children(q) == without(u.children(p), n));
                }
                Tree::lemma_without_holds(u.children(p), n, x);
            }
            assert(u.children(q).contains(x));
        }
    }
    assert forall|k: int| 0 <= k < i + 1 implies v.parent(#[trigger] s[k]) is None by {
        assert(t.has(s[k]));
        if k < i {
            assert(u.parent(s[k]) is None);
        }
    }
}

proof fn lemma_lift_all(l: Lifting, t: Tree, root: NodeId, s: Seq<NodeId>, i: int)
    requires
        t.wf(),
        is_lifting(l.tree, t, root, s, i),
        0 <= i <= s.len(),
        t.all_in(s),
        forall|k: int| 0 <= k < s.len() ==> !t.is_attribute(#[trigger] s[k]),
    ensures
        is_lifting(lifted_from(l, s, i).tree, t, root, s, s.len() as int),
    decreases s.len() - i,
{
    if i < s.len() {
        lemma_lift_one(l.tree, t, root, s, i);
        lemma_lift_all(
            Lifting {
                tree: l.tree.detached(s[i]),
                found: with_entry(
                    l.found,
                    unpositioned(l.tree.path_of(s[i])),
                    blueprint(l.tree, s[i]),
                ),
            },
            t,
            root,
            s,
            i + 1,
        );
    }
}

/// What stands below a node among elements is no attribute.
proof fn lemma_below_is_child(t: Tree, n: NodeId, i: int, x: NodeId)
    requires
        t.wf(),
        t.upright(),
        t.all_apart(),
        t.has(n),
        0 <= i,
        t.below(n, i, false).contains(x),
    ensures
        t.has(x),
        !t.is_attribute(x),
    decreases t.height(n), t.children(n).len() - i,
{
    let s = t.below(n, i, false);
    let k = choose|k: int| 0 <= k < s.len() && s[k] == x;
    t.lemma_children_in(n);
    t.lemma_ranking();
    let child = t.children(n)[i];
    assert(t.has(child));
    assert(t.nodes[n.0 as int].children[i] == child);
    let first = t.visit(child, false);
    if k == 0 {
        assert(first[0] == child);
        assert(t.parent(child) == Some(n));
        assert(t.children(n).contains(child));
        t.lemma_child_is_none(n, child);
    } else if k < first.len() {
        assert(t.below(child, 0, false)[k - 1] == x);
        assert(t.below(child, 0, false).contains(x));
        lemma_below_is_child(t, child, 0, x);
    } else {
        assert(t.below(n, i + 1, false)[k - first.len()] == x);
        assert(t.below(n, i + 1, false).contains(x));
        lemma_below_is_child(t, n, i + 1, x);
    }
}

proof fn lemma_templates_listed(t: Tree, s: Seq<NodeId>, i: int, x: NodeId)
    requires
        0 <= i,
    ensures
        templates_from(t, s, i).contains(x) <==> exists|k: int|
            i <= k < s.len() && #[trigger] s[k] == x && markers(t, x).len() > 0,
    decreases s.len() - i,
{
    let r = templates_from(t, s, i);
    if i < s.len() {
        lemma_templates_listed(t, s, i + 1, x);
        let rest = templates_from(t, s, i + 1);
        if markers(t, s[i]).len() > 0 {
            assert(r == seq![s[i]] + rest);
            if r.contains(x) {
                let k = choose|k: int| 0 <= k < r.len() && r[k] == x;
                if k > 0 {
                    assert(rest[k - 1] == x);
                }
            }
            if rest.contains(x) {
                let k = choose|k: int| 0 <= k < rest.len() && rest[k] == x;
                assert(r[k + 1] == x);
            }
            assert(r[0] == s[i]);
        }
    }
}

proof fn lemma_markers_same(t: Tree, u: Tree, s: Seq<NodeId>, i: int)
    requires
        0 <= i,
        t.all_in(s),
        u.nodes.len() == t.nodes.len(),
        forall|k: int| 0 <= k < t.nodes.len() ==> (#[trigger] u.nodes[k]).name == t.nodes[k].name,
    ensures
        markers_from(u, s, i) == markers_from(t, s, i),
    decreases s.len() - i,
{
    if i < s.len() {
        assert(t.has(s[i]));
        assert(u.nodes[s[i].0 as int].name == t.nodes[s[i].0 as int].name);
        lemma_markers_same(t, u, s, i + 1);
    }
}

/// Answers out of which templates were taken hang together, none of them is
/// marked as a template, and they can be written where they could be.
pub proof fn lemma_lifted(t: Tree, root: NodeId)
    requires
        t.hangs_together(root),
    ensures
        lifted(t).tree.hangs_together(root),
        is_unmarked(lifted(t).tree, root),
        is_writable(t, root) ==> is_writable(lifted(t).tree, root),
{
    let below = t.below(root, 0, false);
    let all = t.descendants(root);
    let s = templates_from(t, all, 0);
    assert(t.has(root));
    t.law_sorted_in_document_order(below);
    assert forall|k: int| 0 <= k < s.len() implies t.has(#[trigger] s[k]) && !t.is_attribute(
        s[k],
    ) by {
        assert(s.contains(s[k]));
        lemma_templates_listed(t, all, 0, s[k]);
        let j = choose|j: int| 0 <= j < all.len() && all[j] == s[k];
        assert(all.contains(s[k]));
        lemma_below_is_child(t, root, 0, s[k]);
    }
    assert(is_less_of(t, t));
    let start = Lifting { tree: t, found: Seq::empty() };
    lemma_lift_all(start, t, root, s, 0);
    let v = lifted_from(start, s, 0).tree;
    let u = v.reindexed();
    v.lemma_reindexed_together(root);
    assert(u == lifted(t).tree);
    assert(u.nodes == v.nodes);
    assert(is_less_of(u, t)) by {
        assert forall|p: NodeId, x: NodeId|
            t.has(p) && #[trigger] u.children(p).contains(x) implies t.children(p).contains(x) by {
            assert(v.children(p).contains(x));
        }
    }
    assert forall|x: NodeId| #[trigger] u.descendants(root).contains(x) implies markers(
        u,
        x,
    ).len() == 0 by {
        u.law_sorted_in_document_order(u.below(root, 0, false));
        assert(u.below(root, 0, false).contains(x));
        lemma_less_below(u, t, root, 0, x);
        assert(below.contains(x));
        assert(all.contains(x));
        lemma_below_is_child(t, root, 0, x);
        t.lemma_children_in(x);
        assert(u.nodes[x.0 as int].attributes == t.nodes[x.0 as int].attributes);
        lemma_markers_same(t, u, t.attributes(x), 0);
        if markers(t, x).len() > 0 {
            lemma_templates_listed(t, all, 0, x);
            let j = choose|j: int| 0 <= j < all.len() && all[j] == x;
            assert(all[j] == x);
            assert(s.contains(x));
            let k = choose|k: int| 0 <= k < s.len() && s[k] == x;
            assert(v.parent(s[k]) is None);
        }
    }
    if is_writable(t, root) {
        assert forall|k: NodeId| #[trigger]
            t.has(k) && is_writable_element(t, k) implies is_writable_element(u, k) by {
            let i = k.0 as int;
            assert(u.nodes[i].name == t.nodes[i].name);
            assert(u.nodes[i].value == t.nodes[i].value);
            t.lemma_children_in(k);
            assert forall|j: int| 0 <= j < u.attributes(k).len() implies is_name(
                u.name(#[trigger] u.attributes(k)[j]),
            ) by {
                let a = t.attributes(k)[j];
                assert(t.has(t.attributes(k)[j]));
                assert(u.nodes[a.0 as int].name == t.nodes[a.0 as int].name);
            }
        }
        lemma_writable_kept(u, t, root);
    }
}

/// A session starts with answers that can be put down, where the blank
/// instance of its form can be written.
pub proof fn law_started_session_can_be_put_down(
    xform: Seq<char>,
    today: Seq<char>,
    now: Seq<char>,
    blank: Tree,
    s: SessionModel,
)
    requires
        blank_of(xform) == Ok::<Tree, Seq<char>>(blank),
        blank.hangs_together(NodeId(0)),
        is_writable(blank, NodeId(0)),
        started(xform, today, now) == Ok::<SessionModel, Seq<char>>(s),
    ensures
        can_be_put_down(s.instance, NodeId(0)),
{
    lemma_lifted(blank, NodeId(0));
}

// ---------------------------------------------------------------------------
// A session that goes on
// ---------------------------------------------------------------------------

proof fn lemma_value_below(t: Tree, u: Tree, root: NodeId)
    requires
        t.wf(),
        u.wf(),
        same_shape(t, u),
        t.has(root),
    ensures
        u.descendants(root) == t.descendants(root),
{
    lemma_below_same(t, u, root, 0);
    lemma_sorted_same(t, u, t.below(root, 0, false));
}

/// An answer that is empty or says something leaves answers such that they
/// can be put down, where a question is answered that holds nothing else.
pub proof fn law_answer_can_be_put_down(t: Tree, root: NodeId, n: NodeId, value: Seq<char>)
    requires
        can_be_put_down(t, root),
        t.has(n),
        t.children(n).len() == 0,
        value.len() == 0 || !is_blank(value),
    ensures
        can_be_put_down(t.with_value(n, value), root),
{
    let u = t.with_value(n, value);
    t.law_values_leave_it_together(root, n, value);
    assert(same_shape(t, u));
    assert(t.has(root));
    lemma_value_below(t, u, root);
    assert forall|x: NodeId| #[trigger] u.descendants(root).contains(x) implies markers(
        u,
        x,
    ).len() == 0 by {
        assert(t.descendants(root).contains(x));
        t.law_sorted_in_document_order(t.below(root, 0, false));
        lemma_below_is_child(t, root, 0, x);
        t.lemma_children_in(x);
        assert(u.nodes[x.0 as int].attributes == t.nodes[x.0 as int].attributes);
        lemma_markers_same(t, u, t.attributes(x), 0);
    }
    assert forall|k: NodeId| #[trigger]
        t.has(k) && is_writable_element(t, k) implies is_writable_element(u, k) by {
        assert(u.nodes[k.0 as int].name == t.nodes[k.0 as int].name);
        t.lemma_children_in(k);
        assert forall|j: int| 0 <= j < u.attributes(k).len() implies is_name(
            u.name(#[trigger] u.attributes(k)[j]),
        ) by {
            let a = t.attributes(k)[j];
            assert(t.has(t.attributes(k)[j]));
            assert(u.nodes[a.0 as int].name == t.nodes[a.0 as int].name);
        }
    }
    lemma_writable_kept(u, t, root);
}

} // verus!
