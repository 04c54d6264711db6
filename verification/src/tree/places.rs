//! Where names lead from the root of a document.

use crate::tree::{NodeId, Tree};
use vstd::prelude::*;

verus! {

/// Whether a node is reached from the root by the first `j` of some names.
pub open spec fn reached(t: Tree, root: NodeId, names: Seq<Seq<char>>, j: int, m: NodeId) -> bool
    decreases j,
{
    if j <= 0 {
        m == root
    } else {
        t.has(m) && t.name(m) == names[j - 1] && (match t.parent(m) {
            Some(p) => t.has(p) && t.children(p).contains(m) && reached(t, root, names, j - 1, p),
            None => false,
        })
    }
}

/// Whether a node is reached from the root by some names.
pub open spec fn is_at(t: Tree, root: NodeId, names: Seq<Seq<char>>, m: NodeId) -> bool {
    reached(t, root, names, names.len() as int, m)
}

/// Whether names go on from others, or are the same.
pub open spec fn extends(names: Seq<Seq<char>>, others: Seq<Seq<char>>) -> bool {
    others.len() <= names.len() && names.take(others.len() as int) == others
}

proof fn lemma_reached_by(
    t: Tree,
    root: NodeId,
    names: Seq<Seq<char>>,
    others: Seq<Seq<char>>,
    j: int,
    m: NodeId,
)
    requires
        j <= names.len(),
        j <= others.len(),
        forall|i: int| 0 <= i < j ==> names[i] == others[i],
    ensures
        reached(t, root, names, j, m) == reached(t, root, others, j, m),
    decreases j,
{
    if j > 0 {
        assert(names[j - 1] == others[j - 1]);
        if let Some(p) = t.parent(m) {
            lemma_reached_by(t, root, names, others, j - 1, p);
        }
    }
}

/// A child of a node is reached by one name more.
pub proof fn lemma_child_at(
    t: Tree,
    root: NodeId,
    names: Seq<Seq<char>>,
    p: NodeId,
    m: NodeId,
)
    requires
        t.wf(),
        t.upright(),
        t.has(p),
        is_at(t, root, names, p),
        t.children(p).contains(m),
    ensures
        t.has(m),
        is_at(t, root, names.push(t.name(m)), m),
{
    let i = choose|i: int| 0 <= i < t.children(p).len() && t.children(p)[i] == m;
    assert(t.nodes[p.0 as int].children[i] == m);
    let more = names.push(t.name(m));
    lemma_reached_by(t, root, names, more, names.len() as int, p);
}

/// The parent of a node is reached by one name less.
pub proof fn lemma_parent_at(t: Tree, root: NodeId, names: Seq<Seq<char>>, m: NodeId)
    requires
        names.len() > 0,
        is_at(t, root, names, m),
    ensures
        t.parent(m) matches Some(p) && t.has(p) && is_at(t, root, names.drop_last(), p),
{
    let p = t.parent(m)->0;
    lemma_reached_by(t, root, names, names.drop_last(), names.len() - 1, p);
}

/// A node is reached by one list of names.
pub proof fn lemma_one_place(
    t: Tree,
    root: NodeId,
    names: Seq<Seq<char>>,
    others: Seq<Seq<char>>,
    m: NodeId,
)
    requires
        t.parent(root) is None,
        is_at(t, root, names, m),
        is_at(t, root, others, m),
    ensures
        names == others,
    decreases names.len(),
{
    if names.len() > 0 && others.len() > 0 {
        lemma_parent_at(t, root, names, m);
        lemma_parent_at(t, root, others, m);
        lemma_one_place(t, root, names.drop_last(), others.drop_last(), t.parent(m)->0);
        assert(names == names.drop_last().push(names.last()));
        assert(others == others.drop_last().push(others.last()));
    } else {
        assert(names == others);
    }
}

/// Whether a node is reached by names that go on from others.
pub open spec fn is_past(t: Tree, root: NodeId, names: Seq<Seq<char>>, m: NodeId) -> bool {
    exists|more: Seq<Seq<char>>| extends(more, names) && #[trigger] is_at(t, root, more, m)
}

proof fn lemma_visit_past(t: Tree, root: NodeId, names: Seq<Seq<char>>, n: NodeId, m: NodeId)
    requires
        t.wf(),
        t.upright(),
        t.has(n),
        is_at(t, root, names, n),
        t.visit(n, false).contains(m),
    ensures
        is_past(t, root, names, m),
    decreases t.height(n), t.children(n).len() + 1,
{
    let all = t.visit(n, false);
    let below = t.below(n, 0, false);
    assert(all == seq![n] + below);
    let k = choose|k: int| 0 <= k < all.len() && all[k] == m;
    if k == 0 {
        assert(names.take(names.len() as int) == names);
        assert(extends(names, names));
    } else {
        assert(below[k - 1] == m);
        lemma_below_past(t, root, names, n, 0, m);
    }
}

proof fn lemma_below_past(
    t: Tree,
    root: NodeId,
    names: Seq<Seq<char>>,
    n: NodeId,
    i: int,
    m: NodeId,
)
    requires
        t.wf(),
        t.upright(),
        t.has(n),
        0 <= i,
        is_at(t, root, names, n),
        t.below(n, i, false).contains(m),
    ensures
        is_past(t, root, names, m),
    decreases t.height(n), t.children(n).len() - i,
{
    if i < t.children(n).len() {
        let child = t.children(n)[i];
        t.lemma_ranking();
        assert(t.nodes[n.0 as int].children[i] == child);
        assert(t.children(n).contains(child));
        lemma_child_at(t, root, names, n, child);
        let first = t.visit(child, false);
        let rest = t.below(n, i + 1, false);
        let all = first + rest;
        let k = choose|k: int| 0 <= k < all.len() && all[k] == m;
        if k < first.len() {
            assert(first[k] == m);
            let next = names.push(t.name(child));
            lemma_visit_past(t, root, next, child, m);
            let more = choose|more: Seq<Seq<char>>|
                extends(more, next) && #[trigger] is_at(t, root, more, m);
            assert(more.take(names.len() as int) == next.take(names.len() as int));
            assert(next.take(names.len() as int) == names);
            assert(extends(more, names));
        } else {
            assert(rest[k - first.len()] == m);
            lemma_below_past(t, root, names, n, i + 1, m);
        }
    }
}

/// What is below a node is reached by names that go on from its own.
pub proof fn lemma_descendant_past(
    t: Tree,
    root: NodeId,
    names: Seq<Seq<char>>,
    n: NodeId,
    m: NodeId,
)
    requires
        t.wf(),
        t.upright(),
        t.has(n),
        is_at(t, root, names, n),
        t.descendants(n).contains(m),
    ensures
        is_past(t, root, names, m),
{
    let below = t.below(n, 0, false);
    t.law_sorted_in_document_order(below);
    assert(below.contains(m));
    lemma_below_past(t, root, names, n, 0, m);
}

} // verus!
