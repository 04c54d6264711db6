//! Copies mirror what they were made of.

use crate::tree::{bare_node, NodeId, NodeKind, Tree};
use vstd::prelude::*;

verus! {

/// Whether nodes were added for others, in the places those have in a list.
pub open spec fn are_for(added: Seq<NodeId>, base: int, v: Seq<NodeId>, s: Seq<NodeId>) -> bool {
    &&& added.len() == s.len()
    &&& forall|i: int|
        0 <= i < s.len() ==> base <= (#[trigger] added[i]).0 < base + v.len() && v[added[i].0
            - base] == s[i]
}

/// Whether the node that was added for the one at `j` of a list has its name
/// and value and, for its attributes and children, the nodes that were added
/// for that one's.
pub open spec fn mirror_at(r: Tree, base: int, t: Tree, v: Seq<NodeId>, j: int) -> bool {
    let node = r.nodes[base + j];
    &&& node.name == t.name(v[j])
    &&& node.value == t.value(v[j])
    &&& are_for(node.attributes, base, v, t.attributes(v[j]))
    &&& are_for(node.children, base, v, t.children(v[j]))
}

/// Nodes that were added for others of a part of a list were added for those
/// of the list.
proof fn lemma_for_more(
    added: Seq<NodeId>,
    base: int,
    v: Seq<NodeId>,
    s: Seq<NodeId>,
    whole: int,
    all: Seq<NodeId>,
)
    requires
        are_for(added, base, v, s),
        whole <= base,
        base + v.len() <= whole + all.len(),
        forall|k: int| 0 <= k < v.len() ==> #[trigger] v[k] == all[base - whole + k],
    ensures
        are_for(added, whole, all, s),
{
    assert forall|i: int| 0 <= i < s.len() implies whole <= (#[trigger] added[i]).0 < whole
        + all.len() && all[added[i].0 - whole] == s[i] by {
        assert(v[added[i].0 - base] == all[base - whole + (added[i].0 - base)]);
    }
}

proof fn lemma_copies_mirror(a: Tree, element: NodeId, t: Tree, s: Seq<NodeId>)
    requires
        a.has(element),
        a.nodes.len() + s.len() <= usize::MAX,
    ensures
        ({
            let r = a.with_copies(element, t, s);
            &&& r.nodes.len() == a.nodes.len() + s.len()
            &&& r.name(element) == a.name(element)
            &&& r.value(element) == a.value(element)
            &&& r.children(element) == a.children(element)
            &&& r.attributes(element).len() == a.attributes(element).len() + s.len()
            &&& forall|i: int|
                a.attributes(element).len() <= i < r.attributes(element).len()
                    ==> #[trigger] r.attributes(element)[i] == NodeId(
                    (a.nodes.len() + i - a.attributes(element).len()) as usize,
                )
            &&& forall|j: int|
                0 <= j < a.nodes.len() && j != element.0 ==> #[trigger] r.nodes[j] == a.nodes[j]
            &&& forall|j: int|
                a.nodes.len() <= j < r.nodes.len() ==> (#[trigger] r.nodes[j]).name == t.name(
                    s[j - a.nodes.len()],
                ) && r.nodes[j].value == t.value(s[j - a.nodes.len()])
                    && r.nodes[j].attributes.len() == 0 && r.nodes[j].children.len() == 0
        }),
    decreases s.len(),
{
    if s.len() > 0 {
        let d = s.drop_last();
        lemma_copies_mirror(a, element, t, d);
        let r = a.with_copies(element, t, s);
        let x = a.with_copies(element, t, d);
        assert forall|j: int| a.nodes.len() <= j < r.nodes.len() implies (
        #[trigger] r.nodes[j]).name == t.name(s[j - a.nodes.len()]) && r.nodes[j].value
            == t.value(s[j - a.nodes.len()]) && r.nodes[j].attributes.len() == 0
            && r.nodes[j].children.len() == 0 by {
            if j < x.nodes.len() {
                assert(r.nodes[j] == x.nodes[j]);
                assert(d[j - a.nodes.len()] == s[j - a.nodes.len()]);
            }
        }
        assert forall|j: int| 0 <= j < a.nodes.len() && j != element.0 implies #[trigger] r.nodes[j]
            == a.nodes[j] by {
            assert(r.nodes[j] == x.nodes[j]);
        }
        assert forall|i: int|
            a.attributes(element).len() <= i < r.attributes(element).len() implies (
        #[trigger] r.attributes(element)[i]) == NodeId(
            (a.nodes.len() + i - a.attributes(element).len()) as usize,
        ) by {
            if i < x.attributes(element).len() {
                assert(r.attributes(element)[i] == x.attributes(element)[i]);
            }
        }
    }
}

pub proof fn lemma_adopted_mirrors(a: Tree, t: Tree, n: NodeId)
    requires
        t.wf(),
        t.all_apart(),
        t.has(n),
        a.nodes.len() + t.size(n) <= usize::MAX,
    ensures
        a.adopted(t, n).nodes.len() == a.nodes.len() + t.visit(n, true).len(),
        forall|j: int|
            0 <= j < a.nodes.len() ==> #[trigger] a.adopted(t, n).nodes[j] == a.nodes[j],
        forall|j: int|
            0 <= j < t.visit(n, true).len() ==> #[trigger] mirror_at(
                a.adopted(t, n),
                a.nodes.len() as int,
                t,
                t.visit(n, true),
                j,
            ),
    decreases t.height(n), t.children(n).len() + 1,
{
    let base = a.nodes.len() as int;
    let id = NodeId(base as usize);
    let ids = t.attributes(n);
    let x = a.grown(bare_node(NodeKind::Element, t.name(n), t.value(n)));
    lemma_copies_mirror(x, id, t, ids);
    let w = x.with_copies(id, t, ids);
    lemma_adopted_below_mirrors(w, t, n, 0, id);
    let r = a.adopted(t, n);
    let v = t.visit(n, true);
    let rest = t.below(n, 0, true);
    assert(v == seq![n] + ids + rest);
    assert(t.attributes_apart(n));
    assert forall|j: int| 0 <= j < base implies #[trigger] r.nodes[j] == a.nodes[j] by {
        assert(r.nodes[j] == w.nodes[j]);
        assert(w.nodes[j] == x.nodes[j]);
    }
    assert forall|j: int| 0 <= j < v.len() implies #[trigger] mirror_at(r, base, t, v, j) by {
        if j == 0 {
            let c = r.children(id);
            assert forall|i: int| 0 <= i < t.children(n).len() implies base <= (#[trigger] c[i]).0
                < base + v.len() && v[c[i].0 - base] == t.children(n)[i] by {
                assert(is_linked(w, r, t, n, 0, id, i));
                assert(v[c[i].0 - base] == rest[c[i].0 - w.nodes.len()]);
            }
            let d = r.attributes(id);
            assert forall|i: int| 0 <= i < ids.len() implies base <= (#[trigger] d[i]).0 < base
                + v.len() && v[d[i].0 - base] == ids[i] by {
                assert(w.attributes(id)[i] == d[i]);
                assert(v[1 + i] == ids[i]);
            }
        } else if j <= ids.len() {
            assert(r.nodes[base + j] == w.nodes[base + j]);
            assert(v[j] == ids[j - 1]);
            assert(t.attributes(n)[j - 1] == v[j]);
        } else {
            let k = j - 1 - ids.len();
            assert(mirror_at(r, w.nodes.len() as int, t, rest, k));
            assert(v[j] == rest[k]);
            let node = r.nodes[base + j];
            let from = w.nodes.len() as int;
            lemma_for_more(node.attributes, from, rest, t.attributes(v[j]), base, v);
            lemma_for_more(node.children, from, rest, t.children(v[j]), base, v);
        }
    }
}

/// Whether the child `m` of a node has its copy among the children of `id`,
/// where those from `i` on were added.
spec fn is_linked(a: Tree, r: Tree, t: Tree, n: NodeId, i: int, id: NodeId, m: int) -> bool {
    let c = r.children(id)[a.children(id).len() + m - i];
    &&& a.nodes.len() <= c.0 < r.nodes.len()
    &&& t.below(n, i, true)[c.0 - a.nodes.len()] == t.children(n)[m]
}

proof fn lemma_adopted_below_mirrors(a: Tree, t: Tree, n: NodeId, i: int, id: NodeId)
    requires
        t.wf(),
        t.all_apart(),
        t.has(n),
        a.has(id),
        0 <= i <= t.children(n).len(),
        a.nodes.len() + t.size_below(n, i) <= usize::MAX,
    ensures
        ({
            let r = a.adopted_below(t, n, i, id);
            let v = t.below(n, i, true);
            &&& r.nodes.len() == a.nodes.len() + v.len()
            &&& r.name(id) == a.name(id)
            &&& r.value(id) == a.value(id)
            &&& r.attributes(id) == a.attributes(id)
            &&& r.children(id).len() == a.children(id).len() + t.children(n).len() - i
            &&& forall|m: int|
                0 <= m < a.children(id).len() ==> #[trigger] r.children(id)[m] == a.children(id)[m]
            &&& forall|m: int|
                i <= m < t.children(n).len() ==> #[trigger] is_linked(a, r, t, n, i, id, m)
            &&& forall|j: int|
                0 <= j < a.nodes.len() && j != id.0 ==> #[trigger] r.nodes[j] == a.nodes[j]
            &&& forall|j: int|
                0 <= j < v.len() ==> #[trigger] mirror_at(r, a.nodes.len() as int, t, v, j)
        }),
    decreases t.height(n), t.children(n).len() - i,
{
    if i < t.children(n).len() {
        let base = a.nodes.len() as int;
        let child = t.children(n)[i];
        t.lemma_ranking();
        t.lemma_children_in(n);
        assert(t.nodes[n.0 as int].children[i] == child);
        assert(t.has(child));
        t.lemma_size_listed(child);
        lemma_adopted_mirrors(a, t, child);
        let c = NodeId(base as usize);
        let x = a.adopted(t, child);
        let y = x.appended(id, c);
        lemma_adopted_below_mirrors(y, t, n, i + 1, id);
        let r = a.adopted_below(t, n, i, id);
        let first = t.visit(child, true);
        let rest = t.below(n, i + 1, true);
        let v = t.below(n, i, true);
        assert(v == first + rest);
        assert(first[0] == child);
        assert(y.children(id) == a.children(id).push(c));
        assert forall|j: int| 0 <= j < base && j != id.0 implies #[trigger] r.nodes[j]
            == a.nodes[j] by {
            assert(r.nodes[j] == y.nodes[j]);
            assert(y.nodes[j] == x.nodes[j]);
        }
        assert forall|m: int| 0 <= m < a.children(id).len() implies #[trigger] r.children(id)[m]
            == a.children(id)[m] by {
            assert(r.children(id)[m] == y.children(id)[m]);
        }
        assert forall|m: int| i <= m < t.children(n).len() implies #[trigger] is_linked(
            a,
            r,
            t,
            n,
            i,
            id,
            m,
        ) by {
            if m == i {
                assert(r.children(id)[a.children(id).len() as int] == y.children(
                    id,
                )[a.children(id).len() as int]);
            } else {
                assert(is_linked(y, r, t, n, i + 1, id, m));
                let d = r.children(id)[a.children(id).len() + m - i];
                assert(v[d.0 - base] == rest[d.0 - y.nodes.len()]);
            }
        }
        assert forall|j: int| 0 <= j < v.len() implies #[trigger] mirror_at(r, base, t, v, j) by {
            if j < first.len() {
                assert(mirror_at(x, base, t, first, j));
                assert(r.nodes[base + j] == y.nodes[base + j]);
                let node = r.nodes[base + j];
                assert(node.children == x.nodes[base + j].children);
                assert(node.attributes == x.nodes[base + j].attributes);
                assert(node.name == x.nodes[base + j].name);
                assert(node.value == x.nodes[base + j].value);
                assert(v[j] == first[j]);
                lemma_for_more(node.attributes, base, first, t.attributes(v[j]), base, v);
                lemma_for_more(node.children, base, first, t.children(v[j]), base, v);
            } else {
                let k = j - first.len();
                assert(mirror_at(r, y.nodes.len() as int, t, rest, k));
                assert(v[j] == rest[k]);
                let node = r.nodes[base + j];
                let from = y.nodes.len() as int;
                lemma_for_more(node.attributes, from, rest, t.attributes(v[j]), base, v);
                lemma_for_more(node.children, from, rest, t.children(v[j]), base, v);
            }
        }
    }
}

} // verus!
