//! Walking from nodes to nodes.

use crate::eval::value::{stray, stray_text};
use crate::parser::ast::{Axis, NameTest, TestModel};
use crate::text::same;
use crate::tree::{Instance, NodeId, Tree};
use vstd::prelude::*;

verus! {

/// A list without the repetitions that stand side by side.
pub open spec fn deduplicated(s: Seq<NodeId>) -> Seq<NodeId>
    decreases s.len(),
{
    if s.len() <= 1 {
        s
    } else if s.last() == s[s.len() - 2] {
        deduplicated(s.drop_last())
    } else {
        deduplicated(s.drop_last()).push(s.last())
    }
}

/// Nodes in document order, each once.
pub open spec fn sorted_unique(t: Tree, s: Seq<NodeId>) -> Seq<NodeId> {
    deduplicated(t.sorted(s))
}

/// Where a node first stands in a list from `i` on, or nowhere.
pub open spec fn position_from(s: Seq<NodeId>, n: NodeId, i: int) -> Option<int>
    decreases s.len() - i,
{
    if i < 0 || i >= s.len() {
        None
    } else if s[i] == n {
        Some(i)
    } else {
        position_from(s, n, i + 1)
    }
}

/// The siblings after a node, or those before it. An attribute is no child
/// of its parent, and counts as standing at the first one.
pub open spec fn siblings(t: Tree, n: NodeId, following: bool) -> Seq<NodeId> {
    match t.parent(n) {
        None => Seq::empty(),
        Some(p) => {
            let all = t.children(p);
            let i = match position_from(all, n, 0) {
                Some(i) => i,
                None => 0,
            };
            if following {
                if i + 1 <= all.len() {
                    all.skip(i + 1)
                } else {
                    Seq::empty()
                }
            } else {
                all.take(i)
            }
        },
    }
}

/// The nodes of the whole document that stand after a node, but for its
/// descendants, or before it, but for its ancestors.
pub open spec fn beyond(t: Tree, s: Seq<NodeId>, n: NodeId, following: bool) -> Seq<NodeId>
    decreases s.len(),
{
    if s.len() == 0 {
        s
    } else {
        let rest = beyond(t, s.drop_last(), n, following);
        let mine = t.document_order(n);
        let theirs = t.document_order(s.last());
        let kept = if following {
            theirs > mine && !t.descendants(n).contains(s.last())
        } else {
            theirs < mine && !t.ancestors(n).contains(s.last())
        };
        if kept {
            rest.push(s.last())
        } else {
            rest
        }
    }
}

/// The nodes that an axis leads to from a node of the tree.
pub open spec fn axis_nodes(t: Tree, n: NodeId, axis: Axis) -> Seq<NodeId> {
    let root = match t.root {
        Some(root) => root,
        None => n,
    };
    let document = seq![root] + t.descendants(root);
    match axis {
        Axis::Child => t.children(n),
        Axis::Parent => match t.parent(n) {
            Some(p) => seq![p],
            None => Seq::empty(),
        },
        Axis::Self_ => seq![n],
        Axis::Attribute => t.attributes(n),
        Axis::Descendant => t.descendants(n),
        Axis::DescendantOrSelf => seq![n] + t.descendants(n),
        Axis::Ancestor => t.ancestors(n),
        Axis::AncestorOrSelf => seq![n] + t.ancestors(n),
        Axis::FollowingSibling => siblings(t, n, true),
        Axis::PrecedingSibling => siblings(t, n, false),
        Axis::Following => beyond(t, document, n, true),
        Axis::Preceding => beyond(t, document, n, false),
    }
}

/// The nodes that an axis leads to. From a node that the document does not
/// have only `self` leads anywhere, and nothing follows it.
pub open spec fn candidates(t: Tree, n: NodeId, axis: Axis) -> Result<Seq<NodeId>, Seq<char>> {
    if axis == Axis::Self_ {
        Ok(seq![n])
    } else if t.has(n) {
        Ok(axis_nodes(t, n, axis))
    } else if axis == Axis::Following && t.root is Some {
        Ok(Seq::empty())
    } else {
        Err(stray(n))
    }
}

/// The nodes that pass a test, from the one at `i` on.
pub open spec fn named_from(t: Tree, s: Seq<NodeId>, test: TestModel, i: int) -> Result<
    Seq<NodeId>,
    Seq<char>,
>
    decreases s.len() - i,
{
    if i < 0 || i >= s.len() {
        Ok(Seq::empty())
    } else {
        match test {
            TestModel::Any => crate::parser::lexer::after(
                seq![s[i]],
                named_from(t, s, test, i + 1),
            ),
            TestModel::Named(name) => if !t.has(s[i]) {
                Err(stray(s[i]))
            } else if t.name(s[i]) == name {
                crate::parser::lexer::after(seq![s[i]], named_from(t, s, test, i + 1))
            } else {
                named_from(t, s, test, i + 1)
            },
        }
    }
}

proof fn lemma_deduplicated(t: Tree, s: Seq<NodeId>)
    requires
        t.in_order(s),
    ensures
        t.in_order(deduplicated(s)),
        forall|n: NodeId| #[trigger] deduplicated(s).contains(n) <==> s.contains(n),
        s.len() > 0 ==> deduplicated(s).len() > 0 && deduplicated(s).last() == s.last(),
    decreases s.len(),
{
    let r = deduplicated(s);
    if s.len() > 1 {
        let d = s.drop_last();
        assert forall|i: int, j: int| 0 <= i < j < d.len() implies t.document_order(
            #[trigger] d[i],
        ) <= t.document_order(#[trigger] d[j]) by {
            assert(d[i] == s[i] && d[j] == s[j]);
        }
        lemma_deduplicated(t, d);
        let p = deduplicated(d);
        assert forall|n: NodeId| s.contains(n) <==> d.contains(n) || n == s.last() by {
            if s.contains(n) {
                let k = choose|k: int| 0 <= k < s.len() && s[k] == n;
                if k < d.len() {
                    assert(d[k] == n);
                }
            }
            if d.contains(n) {
                let k = choose|k: int| 0 <= k < d.len() && d[k] == n;
                assert(s[k] == n);
            }
            assert(s[s.len() - 1] == s.last());
        }
        if s.last() == s[s.len() - 2] {
            assert(d.last() == s.last());
            assert(d[d.len() - 1] == s.last());
        } else {
            assert forall|i: int, j: int| 0 <= i < j < r.len() implies t.document_order(
                #[trigger] r[i],
            ) <= t.document_order(#[trigger] r[j]) by {
                if j < p.len() {
                    assert(r[i] == p[i] && r[j] == p[j]);
                } else {
                    assert(r[i] == p[i]);
                    assert(p.contains(p[i]));
                    assert(d.contains(p[i]));
                    let k = choose|k: int| 0 <= k < d.len() && d[k] == p[i];
                    assert(t.document_order(s[k]) <= t.document_order(s[s.len() - 1]));
                }
            }
            assert forall|n: NodeId| #[trigger] r.contains(n) <==> s.contains(n) by {
                if r.contains(n) {
                    let k = choose|k: int| 0 <= k < r.len() && r[k] == n;
                    if k < p.len() {
                        assert(p[k] == n);
                        assert(p.contains(n));
                    }
                }
                if p.contains(n) {
                    let k = choose|k: int| 0 <= k < p.len() && p[k] == n;
                    assert(r[k] == n);
                }
                assert(r[p.len() as int] == s.last());
                if d.contains(n) {
                    assert(p.contains(n));
                }
            }
        }
    }
}

/// What steps and unions come to stands in document order, and is what was
/// reached.
pub proof fn law_node_sets_in_document_order(t: Tree, s: Seq<NodeId>)
    ensures
        t.in_order(sorted_unique(t, s)),
        forall|n: NodeId| #[trigger] sorted_unique(t, s).contains(n) <==> s.contains(n),
{
    t.law_sorted_in_document_order(s);
    lemma_deduplicated(t, t.sorted(s));
    assert forall|n: NodeId| #[trigger] sorted_unique(t, s).contains(n) <==> s.contains(n) by {
        assert(t.sorted(s).contains(n) <==> s.contains(n));
    }
}

// ---------------------------------------------------------------------------
// Walking
// ---------------------------------------------------------------------------

pub(crate) fn unique(instance: &Instance, ids: &Vec<NodeId>) -> (r: Vec<NodeId>)
    ensures
        r@ == sorted_unique(instance@, ids@),
{
    let sorted = instance.sorted(ids);
    let ghost s = sorted@;
    let n = sorted.len();
    let mut out: Vec<NodeId> = Vec::new();
    assert(s.take(0) == deduplicated(s.take(0)));
    for i in 0..n
        invariant
            s == sorted@,
            n == s.len(),
            out@ == deduplicated(s.take(i as int)),
    {
        assert(s.take(i + 1).drop_last() == s.take(i as int));
        if i == 0 || sorted[i] != sorted[i - 1] {
            out.push(sorted[i]);
            assert(i == 0 ==> out@ == s.take(1));
        }
    }
    assert(s.take(n as int) == s);
    out
}

fn position(ids: &Vec<NodeId>, node: NodeId) -> (r: Option<usize>)
    ensures
        crate::text::as_int(r) == position_from(ids@, node, 0),
        r matches Some(i) ==> i < ids@.len(),
{
    let n = ids.len();
    for i in 0..n
        invariant
            n == ids@.len(),
            position_from(ids@, node, 0) == position_from(ids@, node, i as int),
    {
        if ids[i] == node {
            return Some(i);
        }
    }
    None
}

fn part(ids: &Vec<NodeId>, from: usize, to: usize) -> (r: Vec<NodeId>)
    requires
        from <= to <= ids@.len(),
    ensures
        r@ == ids@.subrange(from as int, to as int),
{
    let mut out: Vec<NodeId> = Vec::new();
    let mut i: usize = from;
    while i < to
        invariant
            from <= i <= to <= ids@.len(),
            out@ == ids@.subrange(from as int, i as int),
        decreases to - i,
    {
        out.push(ids[i]);
        i = i + 1;
    }
    out
}

fn siblings_of(instance: &Instance, node: NodeId, following: bool) -> (r: Vec<NodeId>)
    requires
        instance@.wf(),
        instance@.has(node),
    ensures
        r@ == siblings(instance@, node, following),
{
    match instance.parent(node) {
        None => {
            let none: Vec<NodeId> = Vec::new();
            assert(none@ == Seq::<NodeId>::empty());
            none
        },
        Some(parent) => {
            let all = instance.children(parent);
            let i: usize = match position(&all, node) {
                Some(i) => i,
                None => 0,
            };
            if following {
                if i < all.len() {
                    let r = part(&all, i + 1, all.len());
                    assert(r@ == all@.skip(i + 1));
                    r
                } else {
                    let none: Vec<NodeId> = Vec::new();
                    assert(none@ == Seq::<NodeId>::empty());
                    none
                }
            } else {
                let r = part(&all, 0, i);
                assert(r@ == all@.take(i as int));
                r
            }
        },
    }
}

pub(crate) fn contains(ids: &Vec<NodeId>, node: NodeId) -> (r: bool)
    ensures
        r == ids@.contains(node),
{
    let n = ids.len();
    for i in 0..n
        invariant
            n == ids@.len(),
            forall|j: int| 0 <= j < i ==> ids@[j] != node,
    {
        if ids[i] == node {
            return true;
        }
    }
    false
}

fn beyond_of(instance: &Instance, node: NodeId, following: bool) -> (r: Vec<NodeId>)
    requires
        instance@.wf(),
        instance@.has(node),
    ensures
        r@ == axis_nodes(
            instance@,
            node,
            if following {
                Axis::Following
            } else {
                Axis::Preceding
            },
        ),
{
    let ghost t = instance@;
    let root = match instance.root() {
        Some(root) => root,
        None => node,
    };
    let mut all: Vec<NodeId> = Vec::new();
    all.push(root);
    let mut below = instance.descendants(root);
    all.append(&mut below);
    let ghost s = all@;
    assert(s == seq![root] + t.descendants(root));
    let mine = instance.document_order(node);
    let own = if following {
        instance.descendants(node)
    } else {
        instance.ancestors(node)
    };
    let mut out: Vec<NodeId> = Vec::new();
    let n = all.len();
    assert(s.take(0) == Seq::<NodeId>::empty());
    for i in 0..n
        invariant
            t == instance@,
            s == all@,
            n == s.len(),
            mine == t.document_order(node),
            own@ == (if following {
                t.descendants(node)
            } else {
                t.ancestors(node)
            }),
            out@ == beyond(t, s.take(i as int), node, following),
    {
        assert(s.take(i + 1).drop_last() == s.take(i as int));
        let theirs = instance.document_order(all[i]);
        let kept = if following {
            theirs > mine && !contains(&own, all[i])
        } else {
            theirs < mine && !contains(&own, all[i])
        };
        if kept {
            out.push(all[i]);
        }
    }
    assert(s.take(n as int) == s);
    out
}

pub open spec fn nodes_seen(r: Result<Vec<NodeId>, String>) -> Result<Seq<NodeId>, Seq<char>> {
    match r {
        Ok(v) => Ok(v@),
        Err(e) => Err(e@),
    }
}

fn with_first(node: NodeId, rest: Vec<NodeId>) -> (r: Vec<NodeId>)
    ensures
        r@ == seq![node] + rest@,
{
    let mut rest = rest;
    let mut out: Vec<NodeId> = Vec::new();
    out.push(node);
    out.append(&mut rest);
    out
}

/// The nodes that an axis leads to.
pub(crate) fn along(instance: &Instance, node: NodeId, axis: Axis) -> (r: Result<
    Vec<NodeId>,
    String,
>)
    requires
        instance@.wf(),
    ensures
        nodes_seen(r) == candidates(instance@, node, axis),
{
    let none: Vec<NodeId> = Vec::new();
    assert(none@ == Seq::<NodeId>::empty());
    if axis == Axis::Self_ {
        let v = with_first(node, none);
        assert(v@ == seq![node]);
        return Ok(v);
    }
    if node.0 >= instance.len() {
        if axis == Axis::Following && instance.root().is_some() {
            return Ok(none);
        }
        return Err(stray_text(node));
    }
    let found = match axis {
        Axis::Child => instance.children(node),
        Axis::Parent => match instance.parent(node) {
            Some(p) => {
                let v = with_first(p, none);
                assert(v@ == seq![p]);
                v
            },
            None => none,
        },
        Axis::Self_ => none,
        Axis::Attribute => instance.attributes(node),
        Axis::Descendant => instance.descendants(node),
        Axis::DescendantOrSelf => with_first(node, instance.descendants(node)),
        Axis::Ancestor => instance.ancestors(node),
        Axis::AncestorOrSelf => with_first(node, instance.ancestors(node)),
        Axis::FollowingSibling => siblings_of(instance, node, true),
        Axis::PrecedingSibling => siblings_of(instance, node, false),
        Axis::Following => beyond_of(instance, node, true),
        Axis::Preceding => beyond_of(instance, node, false),
    };
    Ok(found)
}

/// The nodes that pass a test.
pub(crate) fn named(instance: &Instance, ids: &Vec<NodeId>, test: &NameTest) -> (r: Result<
    Vec<NodeId>,
    String,
>)
    ensures
        nodes_seen(r) == named_from(instance@, ids@, test@, 0),
{
    let ghost t = instance@;
    let ghost all = named_from(t, ids@, test@, 0);
    let n = ids.len();
    let mut out: Vec<NodeId> = Vec::new();
    proof {
        if let Ok(s) = all {
            assert(Seq::<NodeId>::empty() + s == s);
        }
    }
    for i in 0..n
        invariant
            t == instance@,
            n == ids@.len(),
            all == named_from(t, ids@, test@, 0),
            all == crate::parser::lexer::after(out@, named_from(t, ids@, test@, i as int)),
    {
        let ghost was = out@;
        let id = ids[i];
        let kept = match test {
            NameTest::Any => true,
            NameTest::Named(name) => {
                if id.0 >= instance.len() {
                    return Err(stray_text(id));
                }
                same(instance.node(id).name.as_str(), name.as_str())
            },
        };
        if kept {
            out.push(id);
            proof {
                if let Ok(s) = named_from(t, ids@, test@, i + 1) {
                    assert(was + (seq![id] + s) == out@ + s);
                }
            }
        }
    }
    assert(out@ + Seq::<NodeId>::empty() == out@);
    Ok(out)
}

} // verus!
