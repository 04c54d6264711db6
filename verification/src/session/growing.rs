//! A row more or less, and an answer more, leave answers that can be put down.

use crate::session::answers::{first_named, grown_along, named, node_at, not_empty, rows_of};
use crate::session::keeping::{
    can_be_put_down, law_answer_can_be_put_down, lemma_child_writable, lemma_without_shorter,
};
use crate::session::laws::{
    law_answer_leaves_answers_together, lemma_element_kept, lemma_first_named_in, lemma_node_in,
    lemma_not_empty_shorter,
};
use crate::session::round_trip::{are_writable, is_name, is_writable, is_writable_element};
use crate::session::rows::{
    law_added_row_leaves_answers_together, law_removed_row_leaves_answers_together,
    lemma_holder_in, lemma_named_in, one_holder, row_name,
};
use crate::session::templates::{markers, markers_from};
use crate::session::SessionModel;
use crate::table::lookup;
use crate::text::{is_blank, split_on};
use crate::tree::edit::place_after;
use crate::tree::mirroring::{lemma_adopted_mirrors, mirror_at};
use crate::tree::standing::{
    lemma_below_visited, lemma_standing_listed, stands_under,
};
use crate::tree::{NodeId, Tree};
use vstd::prelude::*;

verus! {

// ---------------------------------------------------------------------------
// Element by element
// ---------------------------------------------------------------------------

/// Every element under one that can be written can be.
proof fn lemma_all_writable(t: Tree, root: NodeId, x: NodeId)
    requires
        t.wf(),
        t.has(root),
        t.has(x),
        is_writable(t, root),
        stands_under(t, root, x),
    ensures
        is_writable(t, x),
    decreases t.ranking().bound - t.height(x),
{
    if x != root {
        let p = t.parent(x)->0;
        t.lemma_parent(x);
        lemma_all_writable(t, root, p);
        let i = choose|i: int| 0 <= i < t.children(p).len() && t.children(p)[i] == x;
        lemma_child_writable(t, p, 0, i);
    }
}

/// What holds of each element alone makes all of it writable.
proof fn lemma_writable_alone(t: Tree, root: NodeId, n: NodeId, i: int)
    requires
        t.wf(),
        t.upright(),
        t.has(root),
        t.has(n),
        stands_under(t, root, n),
        0 <= i,
        forall|x: NodeId| #[trigger]
            t.has(x) && stands_under(t, root, x) ==> is_writable_element(t, x),
    ensures
        are_writable(t, n, i),
    decreases t.height(n), t.children(n).len() - i,
{
    if i < t.children(n).len() {
        let c = t.children(n)[i];
        t.lemma_children_in(n);
        t.lemma_ranking();
        assert(t.nodes[n.0 as int].children[i] == c);
        assert(NodeId(n.0 as int as usize) == n);
        assert(t.has(c) && t.parent(c) == Some(n));
        assert(t.children(n).contains(c));
        assert(stands_under(t, root, c));
        lemma_writable_alone(t, root, c, 0);
        assert(is_writable_element(t, c));
        assert(is_writable(t, c));
        lemma_writable_alone(t, root, n, i + 1);
    }
}

/// Whether an element can be put down: a document can hold it, and it is not
/// marked as a template.
spec fn is_kept(t: Tree, root: NodeId, x: NodeId) -> bool {
    &&& is_writable_element(t, x)
    &&& x != root ==> markers(t, x).len() == 0
}

/// Answers can be put down where each of their elements can.
proof fn lemma_each_kept(t: Tree, root: NodeId)
    requires
        t.hangs_together(root),
        forall|x: NodeId| #[trigger] t.has(x) && stands_under(t, root, x) ==> is_kept(t, root, x),
    ensures
        can_be_put_down(t, root),
{
    assert(t.has(root));
    assert(stands_under(t, root, root));
    assert forall|x: NodeId| #[trigger]
        t.has(x) && stands_under(t, root, x) implies is_writable_element(t, x) by {
        assert(is_kept(t, root, x));
    }
    lemma_writable_alone(t, root, root, 0);
    assert forall|x: NodeId| #[trigger] t.descendants(root).contains(x) implies markers(
        t,
        x,
    ).len() == 0 by {
        t.law_sorted_in_document_order(t.below(root, 0, false));
        lemma_below_visited(t, root, root, 0, x);
        lemma_has_parent(t, root, 0, x);
        assert(is_kept(t, root, x));
    }
}

/// What is below a node has a parent.
proof fn lemma_has_parent(t: Tree, n: NodeId, i: int, x: NodeId)
    requires
        t.wf(),
        t.upright(),
        t.has(n),
        0 <= i,
        t.below(n, i, false).contains(x),
    ensures
        t.parent(x) is Some,
    decreases t.height(n), t.children(n).len() - i,
{
    let s = t.below(n, i, false);
    let k = choose|k: int| 0 <= k < s.len() && s[k] == x;
    let c = t.children(n)[i];
    t.lemma_children_in(n);
    t.lemma_ranking();
    assert(t.nodes[n.0 as int].children[i] == c);
    let first = t.visit(c, false);
    if k == 0 {
        assert(first[0] == c);
    } else if k < first.len() {
        assert(t.below(c, 0, false)[k - 1] == x);
        lemma_has_parent(t, c, 0, x);
    } else {
        assert(t.below(n, i + 1, false)[k - first.len()] == x);
        lemma_has_parent(t, n, i + 1, x);
    }
}

/// Each element of answers that can be put down can be.
proof fn lemma_kept(t: Tree, root: NodeId, x: NodeId)
    requires
        can_be_put_down(t, root),
        t.has(x),
        stands_under(t, root, x),
    ensures
        is_kept(t, root, x),
{
    assert(t.has(root));
    lemma_all_writable(t, root, x);
    if x != root {
        lemma_standing_listed(t, root, x);
        t.law_sorted_in_document_order(t.below(root, 0, false));
        assert(t.descendants(root).contains(x));
    }
}

proof fn lemma_markers_named(t: Tree, u: Tree, a: Seq<NodeId>, b: Seq<NodeId>, i: int)
    requires
        0 <= i,
        a.len() == b.len(),
        forall|k: int| 0 <= k < a.len() ==> t.name(#[trigger] a[k]) == u.name(b[k]),
    ensures
        markers_from(t, a, i).len() == markers_from(u, b, i).len(),
    decreases a.len() - i,
{
    if i < a.len() {
        assert(t.name(a[i]) == u.name(b[i]));
        lemma_markers_named(t, u, a, b, i + 1);
    }
}

// ---------------------------------------------------------------------------
// A row less
// ---------------------------------------------------------------------------

proof fn lemma_stood_under(t: Tree, u: Tree, root: NodeId, x: NodeId)
    requires
        t.wf(),
        u.wf(),
        u.nodes.len() == t.nodes.len(),
        forall|k: NodeId| #[trigger]
            t.has(k) && u.parent(k) is Some ==> u.parent(k) == t.parent(k),
        forall|p: NodeId, k: NodeId|
            t.has(p) && #[trigger] u.children(p).contains(k) ==> t.children(p).contains(k),
        u.has(x),
        stands_under(u, root, x),
    ensures
        stands_under(t, root, x),
    decreases u.ranking().bound - u.height(x),
{
    if x != root {
        assert(t.has(x));
        let p = u.parent(x)->0;
        u.lemma_parent(x);
        lemma_stood_under(t, u, root, p);
        assert(u.children(p).contains(x));
    }
}

/// A row less leaves answers such that they can be put down.
pub proof fn law_removed_row_can_be_put_down(
    s: SessionModel,
    path: Seq<char>,
    parent: NodeId,
    position: usize,
    root: NodeId,
)
    requires
        s.wf(),
        can_be_put_down(s.instance, root),
        one_holder(s, path, parent),
        1 <= position <= rows_of(s.instance, path, s.env()).len(),
    ensures
        s.without_row(path, position) matches Ok(t) && can_be_put_down(t, root),
{
    let t = s.instance;
    law_removed_row_leaves_answers_together(s, path, parent, position, root);
    let gone = rows_of(t, path, s.env())[position - 1];
    let v = t.detached(gone);
    let u = s.without_row(path, position)->Ok_0;
    assert(u.nodes == v.nodes);
    lemma_holder_in(s, path, parent);
    let all = t.children(parent);
    assert(rows_of(t, path, s.env()) == named(t, all, row_name(path)));
    lemma_named_in(t, all, row_name(path));
    let k = choose|k: int| 0 <= k < all.len() && all[k] == gone;
    assert(t.nodes[parent.0 as int].children[k] == gone);
    assert(t.has(gone) && t.parent(gone) == Some(parent));
    t.lemma_parent(gone);
    lemma_without_shorter(all, gone);
    assert forall|p: NodeId, k: NodeId|
        t.has(p) && #[trigger] u.children(p).contains(k) implies t.children(p).contains(k) by {
        if p == parent {
            Tree::lemma_without_holds(all, gone, k);
        }
    }
    assert forall|x: NodeId| #[trigger] u.has(x) && stands_under(u, root, x) implies is_kept(
        u,
        root,
        x,
    ) by {
        lemma_stood_under(t, u, root, x);
        lemma_kept(t, root, x);
        t.lemma_children_in(x);
        assert(u.attributes(x) == t.attributes(x));
        assert forall|j: int| 0 <= j < t.attributes(x).len() implies u.name(
            #[trigger] t.attributes(x)[j],
        ) == t.name(t.attributes(x)[j]) by {
            assert(t.has(t.attributes(x)[j]));
        }
        lemma_markers_named(t, u, t.attributes(x), u.attributes(x), 0);
    }
    lemma_each_kept(u, root);
}

// ---------------------------------------------------------------------------
// A row more
// ---------------------------------------------------------------------------

/// Whether a tree is another with a copy of a template hung under one of its
/// nodes.
spec fn has_grown(u: Tree, t: Tree, parent: NodeId, template: Tree, top: NodeId) -> bool {
    let base = t.nodes.len() as int;
    let v = template.visit(top, true);
    &&& u.nodes.len() == base + v.len()
    &&& forall|k: int|
        0 <= k < base ==> (#[trigger] u.nodes[k]).name == t.nodes[k].name && u.nodes[k].value
            == t.nodes[k].value && u.nodes[k].attributes == t.nodes[k].attributes
    &&& forall|k: int|
        0 <= k < base && k != parent.0 ==> (#[trigger] u.nodes[k]).children == t.nodes[k].children
    &&& forall|x: NodeId| #[trigger]
        u.children(parent).contains(x) ==> t.children(parent).contains(x) || x.0 == base
    &&& forall|j: int| 0 <= j < v.len() ==> #[trigger] mirror_at(u, base, template, v, j)
}

/// What a node of grown answers was before, or was copied from.
spec fn comes_from(t: Tree, root: NodeId, template: Tree, top: NodeId, x: NodeId) -> bool {
    let base = t.nodes.len() as int;
    let v = template.visit(top, true);
    if x.0 < base {
        stands_under(t, root, x)
    } else {
        x.0 - base < v.len() && template.has(v[x.0 - base]) && stands_under(
            template,
            top,
            v[x.0 - base],
        )
    }
}

proof fn lemma_comes_from(
    u: Tree,
    t: Tree,
    root: NodeId,
    parent: NodeId,
    template: Tree,
    top: NodeId,
    x: NodeId,
)
    requires
        u.wf(),
        t.wf(),
        t.upright(),
        t.has(root),
        t.has(parent),
        template.wf(),
        template.upright(),
        template.has(top),
        has_grown(u, t, parent, template, top),
        u.has(x),
        stands_under(u, root, x),
    ensures
        comes_from(t, root, template, top, x),
    decreases u.ranking().bound - u.height(x),
{
    let base = t.nodes.len() as int;
    let v = template.visit(top, true);
    if x != root {
        let p = u.parent(x)->0;
        u.lemma_parent(x);
        lemma_comes_from(u, t, root, parent, template, top, p);
        let i = choose|i: int| 0 <= i < u.children(p).len() && u.children(p)[i] == x;
        assert(u.children(p).contains(x));
        if p.0 < base {
            if t.children(p).contains(x) {
                let j = choose|j: int| 0 <= j < t.children(p).len() && t.children(p)[j] == x;
                assert(t.nodes[p.0 as int].children[j] == x);
                assert(NodeId(p.0 as int as usize) == p);
                assert(t.parent(x) == Some(p));
            } else {
                if p != parent {
                    assert(u.nodes[p.0 as int].children == t.nodes[p.0 as int].children);
                }
                assert(x.0 == base);
                assert(v[0] == top);
            }
        } else {
            let j = p.0 - base;
            assert(mirror_at(u, base, template, v, j));
            assert(u.nodes[base + j].children[i] == x);
            let q = v[j];
            let c = v[x.0 - base];
            assert(template.children(q)[i] == c);
            assert(template.nodes[q.0 as int].children[i] == c);
            assert(NodeId(q.0 as int as usize) == q);
            assert(template.parent(c) == Some(q));
            assert(template.children(q).contains(c));
        }
    } else {
        assert(stands_under(t, root, root));
    }
}

proof fn lemma_old_kept(
    u: Tree,
    t: Tree,
    root: NodeId,
    parent: NodeId,
    template: Tree,
    top: NodeId,
    x: NodeId,
)
    requires
        t.wf(),
        t.has(x),
        has_grown(u, t, parent, template, top),
        t.value(parent).len() == 0,
        is_kept(t, root, x),
    ensures
        is_kept(u, root, x),
{
    t.lemma_children_in(x);
    assert(u.nodes[x.0 as int].name == t.nodes[x.0 as int].name);
    assert(u.nodes[x.0 as int].value == t.nodes[x.0 as int].value);
    assert(u.nodes[x.0 as int].attributes == t.nodes[x.0 as int].attributes);
    let a = t.attributes(x);
    assert forall|j: int| 0 <= j < a.len() implies t.name(#[trigger] a[j]) == u.name(a[j]) by {
        assert(t.has(t.attributes(x)[j]));
        assert(u.nodes[a[j].0 as int].name == t.nodes[a[j].0 as int].name);
    }
    lemma_markers_named(t, u, a, u.attributes(x), 0);
    assert forall|i: int| 0 <= i < u.attributes(x).len() implies is_name(
        u.name(#[trigger] u.attributes(x)[i]),
    ) by {
        assert(is_name(t.name(t.attributes(x)[i])));
    }
    if x != parent {
        assert(u.nodes[x.0 as int].children == t.nodes[x.0 as int].children);
    }
}

proof fn lemma_new_kept(
    u: Tree,
    t: Tree,
    root: NodeId,
    parent: NodeId,
    template: Tree,
    top: NodeId,
    j: int,
)
    requires
        has_grown(u, t, parent, template, top),
        0 <= j < template.visit(top, true).len(),
        t.nodes.len() + j <= usize::MAX,
        is_writable_element(template, template.visit(top, true)[j]),
        markers(template, template.visit(top, true)[j]).len() == 0,
    ensures
        is_kept(u, root, NodeId((t.nodes.len() + j) as usize)),
{
    let base = t.nodes.len() as int;
    let v = template.visit(top, true);
    let x = NodeId((base + j) as usize);
    let y = v[j];
    assert(mirror_at(u, base, template, v, j));
    let a = template.attributes(y);
    let b = u.attributes(x);
    assert(b == u.nodes[base + j].attributes);
    assert forall|i: int| 0 <= i < a.len() implies template.name(#[trigger] a[i]) == u.name(
        b[i],
    ) by {
        assert(u.nodes[base + j].attributes[i] == b[i]);
        assert(mirror_at(u, base, template, v, b[i].0 - base));
    }
    lemma_markers_named(template, u, a, b, 0);
    assert forall|i: int| 0 <= i < b.len() implies is_name(u.name(#[trigger] b[i])) by {
        assert(template.name(a[i]) == u.name(b[i]));
        assert(is_name(template.name(template.attributes(y)[i])));
    }
}

/// A row more leaves answers such that they can be put down, where a row of
/// that repeat can be and what holds the rows holds no text.
pub proof fn law_added_row_can_be_put_down(
    s: SessionModel,
    path: Seq<char>,
    parent: NodeId,
    template: Tree,
    top: NodeId,
    root: NodeId,
)
    requires
        s.wf(),
        can_be_put_down(s.instance, root),
        one_holder(s, path, parent),
        s.instance.value(parent).len() == 0,
        lookup(s.templates, path) == Some(template),
        can_be_put_down(template, top),
        markers(template, top).len() == 0,
        s.instance.nodes.len() + template.size(top) <= usize::MAX,
    ensures
        s.with_row(path) matches Ok(t) && can_be_put_down(t, root),
{
    let t = s.instance;
    law_added_row_leaves_answers_together(s, path, parent, template, top, root);
    let u = s.with_row(path)->Ok_0;
    let base = t.nodes.len() as int;
    let v = template.visit(top, true);
    lemma_holder_in(s, path, parent);
    assert(template.has(top));
    assert(t.has(root));
    lemma_row_grown(s, path, parent, template, top);
    assert forall|x: NodeId| #[trigger] u.has(x) && stands_under(u, root, x) implies is_kept(
        u,
        root,
        x,
    ) by {
        lemma_comes_from(u, t, root, parent, template, top, x);
        if x.0 < base {
            lemma_kept(t, root, x);
            lemma_old_kept(u, t, root, parent, template, top, x);
        } else {
            lemma_kept(template, top, v[x.0 - base]);
            lemma_new_kept(u, t, root, parent, template, top, x.0 - base);
        }
    }
    lemma_each_kept(u, root);
}

proof fn lemma_row_grown(
    s: SessionModel,
    path: Seq<char>,
    parent: NodeId,
    template: Tree,
    top: NodeId,
)
    requires
        s.wf(),
        one_holder(s, path, parent),
        s.instance.has(parent),
        lookup(s.templates, path) == Some(template),
        template.hangs_together(top),
        s.instance.nodes.len() + template.size(top) <= usize::MAX,
        s.with_row(path) is Ok,
    ensures
        has_grown(s.with_row(path)->Ok_0, s.instance, parent, template, top),
{
    let t = s.instance;
    let u = s.with_row(path)->Ok_0;
    let rows = rows_of(t, path, s.env());
    let base = t.nodes.len() as int;
    let row = NodeId(base as usize);
    let v = template.visit(top, true);
    let grown = t.adopted(template, top);
    let all = t.children(parent);
    assert(template.has(top));
    lemma_adopted_mirrors(t, template, top);
    assert(v[0] == top);
    assert(rows == named(t, all, row_name(path)));
    lemma_named_in(t, all, row_name(path));
    assert(grown.nodes[parent.0 as int] == t.nodes[parent.0 as int]);
    let hung = if rows.len() > 0 {
        grown.inserted_after(rows.last(), row)
    } else {
        grown.appended(parent, row)
    };
    if rows.len() > 0 {
        let last = rows[rows.len() - 1];
        assert(all.contains(last));
        let k = choose|k: int| 0 <= k < all.len() && all[k] == last;
        assert(t.nodes[parent.0 as int].children[k] == last);
        assert(NodeId(parent.0 as int as usize) == parent);
        assert(t.parent(last) == Some(parent));
        assert(grown.nodes[last.0 as int] == t.nodes[last.0 as int]);
        let at = place_after(all, last);
        Tree::lemma_place_after(all, last);
        assert(hung.children(parent) == all.insert(at, row));
        assert forall|x: NodeId| #[trigger]
            hung.children(parent).contains(x) implies all.contains(x) || x.0 == base by {
            let c = hung.children(parent);
            let i = choose|i: int| 0 <= i < c.len() && c[i] == x;
            if i < at {
                assert(all[i] == x);
            } else if i > at {
                assert(all[i - 1] == x);
            }
        }
    } else {
        assert(hung.children(parent) == all.push(row));
        assert forall|x: NodeId| #[trigger]
            hung.children(parent).contains(x) implies all.contains(x) || x.0 == base by {
            let c = hung.children(parent);
            let i = choose|i: int| 0 <= i < c.len() && c[i] == x;
            if i < all.len() {
                assert(all[i] == x);
            }
        }
    }
    assert(u.nodes == hung.nodes);
    assert forall|k: int| 0 <= k < base implies (#[trigger] u.nodes[k]).name == t.nodes[k].name
        && u.nodes[k].value == t.nodes[k].value && u.nodes[k].attributes
        == t.nodes[k].attributes by {
        assert(grown.nodes[k] == t.nodes[k]);
    }
    assert forall|k: int| 0 <= k < base && k != parent.0 implies (#[trigger] u.nodes[k]).children
        == t.nodes[k].children by {
        assert(grown.nodes[k] == t.nodes[k]);
    }
    assert forall|x: NodeId| #[trigger] u.children(parent).contains(x) implies t.children(
        parent,
    ).contains(x) || x.0 == base by {
        assert(hung.children(parent).contains(x));
    }
    assert forall|j: int|
        0 <= j < v.len() implies #[trigger] mirror_at(u, base, template, v, j) by {
        assert(mirror_at(grown, base, template, v, j));
        assert(u.nodes[base + j].name == grown.nodes[base + j].name);
        assert(u.nodes[base + j].value == grown.nodes[base + j].value);
        assert(u.nodes[base + j].attributes == grown.nodes[base + j].attributes);
        assert(u.nodes[base + j].children == grown.nodes[base + j].children);
    }
}

// ---------------------------------------------------------------------------
// An answer more
// ---------------------------------------------------------------------------

/// Whether no element holds a text that the elements of a path would be put
/// in, or in whose place.
pub open spec fn is_clear(t: Tree, here: NodeId, parts: Seq<Seq<char>>, k: int) -> bool
    decreases parts.len() - k,
{
    &&& t.value(here).len() == 0
    &&& 0 <= k < parts.len() ==> (first_named(t, t.children(here), parts[k], 0) matches Some(child)
        ==> is_clear(t, child, parts, k + 1))
}

spec fn each_kept(t: Tree, root: NodeId) -> bool {
    forall|x: NodeId| #[trigger] t.has(x) && stands_under(t, root, x) ==> is_kept(t, root, x)
}

/// What stands under a root still does where a node has one more child.
proof fn lemma_still_stands(t: Tree, u: Tree, root: NodeId, x: NodeId)
    requires
        t.wf(),
        u.wf(),
        t.nodes.len() <= u.nodes.len(),
        forall|k: NodeId| #[trigger] t.has(k) ==> u.parent(k) == t.parent(k),
        forall|p: NodeId, k: NodeId| #[trigger]
            t.children(p).contains(k) && t.has(p) ==> u.children(p).contains(k),
        t.has(x),
        stands_under(t, root, x),
    ensures
        stands_under(u, root, x),
    decreases t.ranking().bound - t.height(x),
{
    if x != root {
        let p = t.parent(x)->0;
        t.lemma_parent(x);
        lemma_still_stands(t, u, root, p);
        assert(t.children(p).contains(x));
    }
}

/// What stands under a root after a new element is that element, or stood
/// there before.
proof fn lemma_stood_or_new(
    t: Tree,
    root: NodeId,
    here: NodeId,
    name: Seq<char>,
    value: Seq<char>,
    x: NodeId,
)
    requires
        t.wf(),
        t.upright(),
        t.has(root),
        t.has(here),
        t.nodes.len() < usize::MAX,
        t.with_element(here, name, value).wf(),
        t.with_element(here, name, value).has(x),
        stands_under(t.with_element(here, name, value), root, x),
        x.0 != t.nodes.len(),
    ensures
        stands_under(t, root, x),
    decreases
        t.with_element(here, name, value).ranking().bound - t.with_element(
            here,
            name,
            value,
        ).height(x),
{
    let u = t.with_element(here, name, value);
    let id = NodeId(t.nodes.len() as usize);
    if x != root {
        let p = u.parent(x)->0;
        u.lemma_parent(x);
        assert(u.children(p).contains(x));
        let i = choose|i: int| 0 <= i < u.children(p).len() && u.children(p)[i] == x;
        assert(p != id) by {
            assert(u.children(id).len() == 0);
        }
        lemma_stood_or_new(t, root, here, name, value, p);
        if p == here {
            assert(u.children(here) == t.children(here).push(id));
            assert(t.children(here)[i] == x);
        }
        assert(t.children(p).contains(x));
        assert(t.parent(x) == Some(p));
    }
}

/// A new element that can be put down, in one that holds no text, leaves
/// every element one that can.
proof fn lemma_element_each(
    t: Tree,
    root: NodeId,
    here: NodeId,
    name: Seq<char>,
    value: Seq<char>,
)
    requires
        t.wf(),
        t.upright(),
        t.has(root),
        each_kept(t, root),
        t.has(here),
        stands_under(t, root, here),
        t.value(here).len() == 0,
        is_name(name),
        value.len() == 0 || !is_blank(value),
        t.nodes.len() < usize::MAX,
    ensures
        ({
            let u = t.with_element(here, name, value);
            let id = NodeId(t.nodes.len() as usize);
            &&& u.wf()
            &&& u.upright()
            &&& u.nodes.len() == t.nodes.len() + 1
            &&& each_kept(u, root)
            &&& stands_under(u, root, id)
            &&& u.value(id) == value
        }),
{
    let u = t.with_element(here, name, value);
    let id = NodeId(t.nodes.len() as usize);
    lemma_element_kept(t, here, name, value);
    assert(u.children(here) == t.children(here).push(id));
    assert forall|p: NodeId, k: NodeId| #[trigger]
        t.children(p).contains(k) && t.has(p) implies u.children(p).contains(k) by {
        let i = choose|i: int| 0 <= i < t.children(p).len() && t.children(p)[i] == k;
        assert(u.children(p)[i] == k);
    }
    lemma_still_stands(t, u, root, here);
    assert(u.children(here)[t.children(here).len() as int] == id);
    assert(u.children(here).contains(id));
    assert(u.parent(id) == Some(here));
    assert(stands_under(u, root, id));
    assert forall|x: NodeId| #[trigger] u.has(x) && stands_under(u, root, x) implies is_kept(
        u,
        root,
        x,
    ) by {
        if x != id {
            lemma_stood_or_new(t, root, here, name, value, x);
            assert(t.has(x));
            assert(is_kept(t, root, x));
            t.lemma_children_in(x);
            let a = t.attributes(x);
            assert(u.attributes(x) == a);
            assert forall|j: int| 0 <= j < a.len() implies t.name(#[trigger] a[j]) == u.name(
                a[j],
            ) by {
                assert(t.has(t.attributes(x)[j]));
            }
            assert forall|j: int| 0 <= j < u.attributes(x).len() implies is_name(
                u.name(#[trigger] u.attributes(x)[j]),
            ) by {
                assert(t.name(a[j]) == u.name(a[j]));
                assert(is_name(t.name(t.attributes(x)[j])));
            }
            lemma_markers_named(t, u, a, u.attributes(x), 0);
            if x != here {
                assert(u.children(x) == t.children(x));
            }
        } else {
            assert(u.attributes(id).len() == 0);
        }
    }
}

proof fn lemma_grown_each(
    t: Tree,
    root: NodeId,
    here: NodeId,
    parts: Seq<Seq<char>>,
    k: int,
    leaf: Seq<char>,
    value: Seq<char>,
)
    requires
        t.wf(),
        t.upright(),
        t.has(root),
        each_kept(t, root),
        t.has(here),
        stands_under(t, root, here),
        0 <= k <= parts.len(),
        is_clear(t, here, parts, k),
        forall|i: int| 0 <= i < parts.len() ==> is_name(#[trigger] parts[i]),
        is_name(leaf),
        value.len() == 0 || !is_blank(value),
        t.nodes.len() + parts.len() - k < usize::MAX,
    ensures
        grown_along(t, here, parts, k, leaf, value).wf(),
        each_kept(grown_along(t, here, parts, k, leaf, value), root),
    decreases parts.len() - k,
{
    if k < parts.len() {
        match first_named(t, t.children(here), parts[k], 0) {
            Some(child) => {
                lemma_first_named_in(t, t.children(here), parts[k], 0);
                t.lemma_children_in(here);
                let i = choose|i: int|
                    0 <= i < t.children(here).len() && t.children(here)[i] == child;
                assert(t.nodes[here.0 as int].children[i] == child);
                assert(NodeId(here.0 as int as usize) == here);
                assert(t.parent(child) == Some(here));
                assert(stands_under(t, root, child));
                lemma_grown_each(t, root, child, parts, k + 1, leaf, value);
            },
            None => {
                reveal_strlit("");
                assert(is_name(parts[k]));
                lemma_element_each(t, root, here, parts[k], ""@);
                let u = t.with_element(here, parts[k], ""@);
                let id = NodeId(t.nodes.len() as usize);
                assert(u.children(id).len() == 0);
                assert(first_named(u, u.children(id), parts[k + 1], 0) is None);
                lemma_grown_each(u, root, id, parts, k + 1, leaf, value);
            },
        }
    } else {
        lemma_element_each(t, root, here, leaf, value);
    }
}

/// An answer that is empty or says something leaves answers such that they
/// can be put down, also where its path is made: of names that a document
/// can hold, and in no element that holds a text.
pub proof fn law_new_answer_can_be_put_down(
    s: SessionModel,
    root: NodeId,
    path: Seq<char>,
    value: Seq<char>,
)
    requires
        s.wf(),
        can_be_put_down(s.instance, root),
        s.instance.nodes.len() + split_on(path, '/').len() < usize::MAX,
        value.len() == 0 || !is_blank(value),
        node_at(s.instance, path, s.env()) matches Some(n) ==> s.instance.children(n).len() == 0,
        node_at(s.instance, path, s.env()) is None ==> {
            let parts = not_empty(split_on(path, '/'));
            &&& forall|i: int| 0 <= i < parts.len() ==> is_name(#[trigger] parts[i])
            &&& is_clear(s.instance, root, made_below(s.instance, root, parts), 0)
        },
    ensures
        s.set(path, value) matches Ok(t) ==> can_be_put_down(t, root),
{
    let t = s.instance;
    law_answer_leaves_answers_together(s, root, path, value);
    match node_at(t, path, s.env()) {
        Some(n) => {
            lemma_node_in(t, path, s.env());
            law_answer_can_be_put_down(t, root, n, value);
        },
        None => {
            if let Ok(u) = s.set(path, value) {
                let all = split_on(path, '/');
                let parts = not_empty(all);
                lemma_not_empty_shorter(all);
                let below = made_below(t, root, parts);
                assert(t.has(root));
                assert(stands_under(t, root, root));
                assert forall|x: NodeId| #[trigger]
                    t.has(x) && stands_under(t, root, x) implies is_kept(t, root, x) by {
                    lemma_kept(t, root, x);
                }
                assert forall|i: int| 0 <= i < below.len() implies is_name(#[trigger] below[i]) by {
                    let d = parts.len() - 1 - below.len();
                    assert(below[i] == parts[i + d]);
                }
                assert(is_name(parts[parts.len() - 1]));
                lemma_grown_each(t, root, root, below, 0, parts.last(), value);
                let v = grown_along(t, root, below, 0, parts.last(), value);
                assert(u.nodes == v.nodes);
                assert forall|x: NodeId| #[trigger]
                    u.has(x) && stands_under(u, root, x) implies is_kept(u, root, x) by {
                    lemma_stood_under(v, u, root, x);
                    assert(v.has(x));
                    assert(is_kept(v, root, x));
                    lemma_markers_named(v, u, v.attributes(x), u.attributes(x), 0);
                }
                lemma_each_kept(u, root);
            }
        },
    }
}

/// The names of a path that stand between a root and what the path names.
pub open spec fn made_below(t: Tree, root: NodeId, parts: Seq<Seq<char>>) -> Seq<Seq<char>> {
    let above = parts.drop_last();
    if above.len() > 0 && t.name(root) == above[0] {
        above.skip(1)
    } else {
        above
    }
}

} // verus!
