//! What is below a node of a document, and what is above it.

use crate::tree::{NodeId, NodeKind, Tree};
use vstd::prelude::*;

verus! {

impl Tree {
    /// Whether a list stands in document order, and holds nothing twice.
    pub open spec fn ascends(self, s: Seq<NodeId>) -> bool {
        forall|i: int, j: int|
            0 <= i < j < s.len() ==> self.document_order(#[trigger] s[i]) < self.document_order(
                #[trigger] s[j],
            )
    }

    pub open spec fn is_element(self, n: NodeId) -> bool {
        self.has(n) && self.node(n).kind == NodeKind::Element
    }

    /// A parent reaches from before what it holds to beyond it.
    proof fn lemma_held(self, ends: Seq<int>, x: NodeId)
        requires
            self.wf(),
            self.laid(ends),
            self.has(x),
        ensures
            self.parent(x) matches Some(p) ==> self.has(p) && p.0 < x.0 && ends[x.0 as int]
                <= ends[p.0 as int] && self.node(p).kind == NodeKind::Element,
    {
        if let Some(p) = self.parent(x) {
            self.lemma_parent(x);
            assert(self.nodes[x.0 as int].parent == Some(p));
            let k = p.0 as int;
            assert(self.laid_at(ends, k));
            assert(self.laid_at(ends, x.0 as int));
            if self.children(p).contains(x) {
                let i = choose|i: int| 0 <= i < self.children(p).len() && self.children(p)[i] == x;
                assert(self.child_at(ends, k, i));
                self.lemma_below_laid(ends, k, i + 1);
            } else {
                let i = choose|i: int|
                    0 <= i < self.attributes(p).len() && self.attributes(p)[i] == x;
                assert(self.attribute_at(k, i));
                self.lemma_below_laid(ends, k, 0);
            }
        }
    }

    /// What is above a node reaches from before it to beyond it.
    proof fn lemma_above_reaches(self, ends: Seq<int>, x: NodeId, n: NodeId)
        requires
            self.wf(),
            self.laid(ends),
            self.has(x),
            self.ancestors(x).contains(n),
        ensures
            self.has(n),
            n.0 < x.0,
            ends[x.0 as int] <= ends[n.0 as int],
            self.node(n).kind == NodeKind::Element,
        decreases x.0,
    {
        let p = self.parent(x)->0;
        self.lemma_held(ends, x);
        let up = self.ancestors(x);
        assert(up == seq![p] + self.ancestors(p));
        if n != p {
            let k = choose|k: int| 0 <= k < up.len() && up[k] == n;
            assert(self.ancestors(p)[k - 1] == n);
            self.lemma_above_reaches(ends, p, n);
        }
    }

    /// The child that a place between where children begin and where their
    /// parent ends belongs to.
    proof fn lemma_child_around(self, ends: Seq<int>, p: int, i: int, x: int) -> (j: int)
        requires
            self.wf(),
            self.laid(ends),
            0 <= p < self.nodes.len(),
            0 <= i <= self.nodes[p].children.len(),
            self.begin(ends, p, i) <= x < ends[p],
        ensures
            i <= j < self.nodes[p].children.len(),
            self.nodes[p].children[j].0 <= x < ends[self.nodes[p].children[j].0 as int],
        decreases self.nodes[p].children.len() - i,
    {
        assert(self.laid_at(ends, p));
        assert(i < self.nodes[p].children.len());
        assert(self.child_at(ends, p, i));
        if x < ends[self.nodes[p].children[i].0 as int] {
            i
        } else {
            self.lemma_child_around(ends, p, i + 1, x)
        }
    }

    /// A node that others lie within is above them.
    proof fn lemma_within_is_below(self, ends: Seq<int>, p: int, x: int)
        requires
            self.wf(),
            self.laid(ends),
            0 <= p < x < ends[p],
            p < self.nodes.len(),
        ensures
            x < self.nodes.len(),
            self.ancestors(NodeId(x as usize)).contains(NodeId(p as usize)),
        decreases x - p,
    {
        assert(self.laid_at(ends, p));
        let me = NodeId(x as usize);
        let up = NodeId(p as usize);
        let a = self.nodes[p].attributes.len();
        if x <= p + a {
            let i = x - p - 1;
            assert(self.attribute_at(p, i));
            assert(self.ancestors(me) == seq![up] + self.ancestors(up));
            assert(self.ancestors(me)[0] == up);
        } else {
            let j = self.lemma_child_around(ends, p, 0, x);
            assert(self.child_at(ends, p, j));
            let child = self.nodes[p].children[j];
            assert(self.ancestors(child) == seq![up] + self.ancestors(up));
            assert(self.ancestors(child)[0] == up);
            if child != me {
                self.lemma_within_is_below(ends, child.0 as int, x);
                assert(NodeId(child.0 as int as usize) == child);
                self.lemma_above_above(me, child, up);
            }
        }
    }

    /// What is above a node that is above another is above that other.
    pub proof fn lemma_above_above(self, n: NodeId, a: NodeId, b: NodeId)
        requires
            self.wf(),
            self.has(n),
            self.ancestors(n).contains(a),
            self.has(a),
            self.ancestors(a).contains(b),
        ensures
            self.ancestors(n).contains(b),
        decreases self.ranking().bound - self.height(n),
    {
        let p = self.parent(n)->0;
        self.lemma_parent(n);
        let up = self.ancestors(n);
        assert(up == seq![p] + self.ancestors(p));
        let k = choose|k: int| 0 <= k < up.len() && up[k] == a;
        if k > 0 {
            assert(self.ancestors(p)[k - 1] == a);
            self.lemma_above_above(p, a, b);
        }
        let rest = self.ancestors(p);
        let j = choose|j: int| 0 <= j < rest.len() && rest[j] == b;
        assert(up[j + 1] == b);
    }

    /// A walk from an element lists the elements that lie within it.
    proof fn lemma_visit_lists(self, ends: Seq<int>, p: int)
        requires
            self.wf(),
            self.laid(ends),
            0 <= p < self.nodes.len(),
            self.nodes[p].kind == NodeKind::Element,
        ensures
            lists(self, self.visit(NodeId(p as usize), false), p, ends[p]),
        decreases self.height(NodeId(p as usize)), self.nodes[p].children.len() + 1,
    {
        let n = NodeId(p as usize);
        assert(self.laid_at(ends, p));
        self.lemma_below_lists(ends, p, 0);
        let rest = self.below(n, 0, false);
        let s = self.visit(n, false);
        assert(s =~= seq![n] + rest);
        self.lemma_below_laid(ends, p, 0);
        assert(lists(self, seq![n], p, p + 1)) by {
            assert forall|x: NodeId| #[trigger] seq![n].contains(x) <==> self.is_element(x) && p
                <= x.0 < p + 1 by {
                assert(seq![n][0] == n);
            }
        }
        assert(lists(self, Seq::empty(), p + 1, self.begin(ends, p, 0))) by {
            assert forall|x: NodeId| #[trigger] Seq::<NodeId>::empty().contains(x)
                <==> self.is_element(x) && p + 1 <= x.0 < self.begin(ends, p, 0) by {
                if self.has(x) && p + 1 <= x.0 < self.begin(ends, p, 0) {
                    assert(self.attribute_at(p, x.0 - p - 1));
                }
            }
        }
        lemma_lists_join(self, seq![n], Seq::empty(), p, p + 1, self.begin(ends, p, 0));
        assert(seq![n] + Seq::<NodeId>::empty() =~= seq![n]);
        lemma_lists_join(self, seq![n], rest, p, self.begin(ends, p, 0), ends[p]);
    }

    proof fn lemma_below_lists(self, ends: Seq<int>, p: int, i: int)
        requires
            self.wf(),
            self.laid(ends),
            0 <= p < self.nodes.len(),
            0 <= i <= self.nodes[p].children.len(),
        ensures
            lists(
                self,
                self.below(NodeId(p as usize), i, false),
                self.begin(ends, p, i),
                ends[p],
            ),
        decreases self.height(NodeId(p as usize)), self.nodes[p].children.len() - i,
    {
        let n = NodeId(p as usize);
        assert(self.laid_at(ends, p));
        if i < self.nodes[p].children.len() {
            let child = self.nodes[p].children[i];
            assert(self.child_at(ends, p, i));
            self.lemma_ranking();
            let c = child.0 as int;
            assert(NodeId(c as usize) == child);
            self.lemma_visit_lists(ends, c);
            self.lemma_below_lists(ends, p, i + 1);
            self.lemma_below_laid(ends, p, i + 1);
            assert(self.laid_at(ends, c));
            lemma_lists_join(
                self,
                self.visit(child, false),
                self.below(n, i + 1, false),
                c,
                ends[c],
                ends[p],
            );
        } else {
            assert(self.below(n, i, false) =~= Seq::<NodeId>::empty());
        }
    }

    proof fn lemma_size(self, ends: Seq<int>, p: int)
        requires
            self.wf(),
            self.laid(ends),
            0 <= p < self.nodes.len(),
        ensures
            self.size(NodeId(p as usize)) == ends[p] - p,
        decreases self.height(NodeId(p as usize)), self.nodes[p].children.len() + 1,
    {
        assert(self.laid_at(ends, p));
        self.lemma_size_below(ends, p, 0);
    }

    proof fn lemma_size_below(self, ends: Seq<int>, p: int, i: int)
        requires
            self.wf(),
            self.laid(ends),
            0 <= p < self.nodes.len(),
            0 <= i <= self.nodes[p].children.len(),
        ensures
            self.size_below(NodeId(p as usize), i) == ends[p] - self.begin(ends, p, i),
        decreases self.height(NodeId(p as usize)), self.nodes[p].children.len() - i,
    {
        assert(self.laid_at(ends, p));
        if i < self.nodes[p].children.len() {
            let child = self.nodes[p].children[i];
            assert(self.child_at(ends, p, i));
            self.lemma_ranking();
            assert(NodeId(child.0 as int as usize) == child);
            self.lemma_size(ends, child.0 as int);
            self.lemma_size_below(ends, p, i + 1);
        }
    }

    /// What is below a node of a document is no more than the document.
    pub proof fn lemma_size_fits(self, n: NodeId)
        requires
            self.as_read(),
            self.has(n),
        ensures
            self.size(n) <= self.nodes.len(),
    {
        let ends = choose|ends: Seq<int>| #[trigger] self.is_layout(ends);
        assert(self.laid_at(ends, n.0 as int));
        assert(NodeId(n.0 as int as usize) == n);
        self.lemma_size(ends, n.0 as int);
    }

    /// A list in order is what sorting makes of it.
    proof fn lemma_sorted_already(self, s: Seq<NodeId>)
        requires
            self.in_order(s),
        ensures
            self.sorted(s) == s,
        decreases s.len(),
    {
        if s.len() > 0 {
            let d = s.drop_last();
            assert forall|i: int, j: int| 0 <= i < j < d.len() implies self.document_order(
                #[trigger] d[i],
            ) <= self.document_order(#[trigger] d[j]) by {
                assert(d[i] == s[i] && d[j] == s[j]);
            }
            self.lemma_sorted_already(d);
            if d.len() > 0 {
                assert(self.document_order(s[s.len() - 2]) <= self.document_order(s[s.len() - 1]));
            }
            assert(d.push(s.last()) =~= s);
        }
    }

    /// The descendants of a node of a document are the elements that have it
    /// above them, each once and in document order. So neither the node
    /// itself is among them, nor any attribute.
    pub proof fn law_descendants_are_below(self, n: NodeId)
        requires
            self.as_read(),
            self.has(n),
        ensures
            self.ascends(self.descendants(n)),
            forall|x: NodeId| #[trigger]
                self.descendants(n).contains(x) <==> self.is_element(x) && self.ancestors(
                    x,
                ).contains(n),
            forall|x: NodeId| #[trigger] self.descendants(n).contains(x) ==> x.0 > n.0,
    {
        let ends = choose|ends: Seq<int>| #[trigger] self.is_layout(ends);
        let p = n.0 as int;
        assert(NodeId(p as usize) == n);
        assert(self.laid_at(ends, p));
        let s = self.below(n, 0, false);
        self.lemma_below_lists(ends, p, 0);
        assert forall|i: int, j: int| 0 <= i < j < s.len() implies self.document_order(
            #[trigger] s[i],
        ) < self.document_order(#[trigger] s[j]) by {
            assert(s.contains(s[i]) && s.contains(s[j]));
        }
        self.lemma_sorted_already(s);
        assert(self.descendants(n) == s);
        assert forall|x: NodeId| #[trigger] s.contains(x) <==> self.is_element(x)
            && self.ancestors(x).contains(n) by {
            if s.contains(x) {
                assert(NodeId(x.0 as int as usize) == x);
                self.lemma_within_is_below(ends, p, x.0 as int);
            }
            if self.is_element(x) && self.ancestors(x).contains(n) {
                self.lemma_above_reaches(ends, x, n);
                assert(self.laid_at(ends, x.0 as int));
                if x.0 < self.begin(ends, p, 0) {
                    assert(self.attribute_at(p, x.0 - p - 1));
                }
            }
        }
    }

    /// What is above a node of a document stands before it, and is an
    /// element.
    pub proof fn lemma_ancestors_before(self, x: NodeId, n: NodeId)
        requires
            self.as_read(),
            self.has(x),
            self.ancestors(x).contains(n),
        ensures
            n.0 < x.0,
            self.is_element(n),
    {
        let ends = choose|ends: Seq<int>| #[trigger] self.is_layout(ends);
        self.lemma_above_reaches(ends, x, n);
    }

    /// The root of a document is above every other node.
    pub proof fn lemma_root_above(self, x: NodeId)
        requires
            self.as_read(),
            self.has(x),
            x != NodeId(0),
        ensures
            self.ancestors(x).contains(NodeId(0)),
    {
        let ends = choose|ends: Seq<int>| #[trigger] self.is_layout(ends);
        self.lemma_within_is_below(ends, 0, x.0 as int);
        assert(NodeId(x.0 as int as usize) == x);
    }
}

/// Whether a list holds the elements from `a` to `b`, in the order of the
/// arena.
spec fn lists(t: Tree, s: Seq<NodeId>, a: int, b: int) -> bool {
    &&& forall|x: NodeId| #[trigger] s.contains(x) <==> t.is_element(x) && a <= x.0 < b
    &&& forall|i: int, j: int| 0 <= i < j < s.len() ==> (#[trigger] s[i]).0 < (#[trigger] s[j]).0
}

proof fn lemma_lists_join(t: Tree, s: Seq<NodeId>, r: Seq<NodeId>, a: int, b: int, c: int)
    requires
        lists(t, s, a, b),
        lists(t, r, b, c),
        a <= b <= c,
    ensures
        lists(t, s + r, a, c),
{
    let all = s + r;
    assert forall|x: NodeId| #[trigger] all.contains(x) <==> t.is_element(x) && a <= x.0 < c by {
        if all.contains(x) {
            let k = choose|k: int| 0 <= k < all.len() && all[k] == x;
            if k < s.len() {
                assert(s[k] == x);
                assert(s.contains(x));
            } else {
                assert(r[k - s.len()] == x);
                assert(r.contains(x));
            }
        }
        if t.is_element(x) && a <= x.0 < c {
            if x.0 < b {
                assert(s.contains(x));
                let k = choose|k: int| 0 <= k < s.len() && s[k] == x;
                assert(all[k] == x);
            } else {
                assert(r.contains(x));
                let k = choose|k: int| 0 <= k < r.len() && r[k] == x;
                assert(all[s.len() + k] == x);
            }
        }
    }
    assert forall|i: int, j: int| 0 <= i < j < all.len() implies (#[trigger] all[i]).0 < (
    #[trigger] all[j]).0 by {
        if i < s.len() && j >= s.len() {
            assert(s[i] == all[i]);
            assert(s.contains(s[i]));
            assert(r[j - s.len()] == all[j]);
            assert(r.contains(r[j - s.len()]));
        } else if i < s.len() {
            assert(all[i] == s[i] && all[j] == s[j]);
        } else {
            assert(all[i] == r[i - s.len()] && all[j] == r[j - s.len()]);
        }
    }
}

} // verus!
