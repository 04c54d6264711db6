//! Documents that hold the same are the same.

use crate::tree::{NodeId, NodeModel, Tree};
use vstd::prelude::*;

verus! {

/// Whether two trees have the same node at a place, its parent aside.
spec fn same_at(t: Tree, u: Tree, k: int) -> bool {
    u.nodes[k] == (NodeModel { parent: u.nodes[k].parent, ..t.nodes[k] })
}

/// Whether two trees have the same nodes from `a` to `b`.
spec fn same_between(t: Tree, u: Tree, a: int, b: int) -> bool {
    forall|k: int| a <= k < b ==> #[trigger] same_at(t, u, k) && t.nodes[k].parent
        == u.nodes[k].parent
}

impl Tree {
    proof fn lemma_copy_in_place(self, u: Tree, ends: Seq<int>, others: Seq<int>, p: int)
        requires
            self.wf(),
            u.wf(),
            self.laid(ends),
            u.laid(others),
            0 <= p < self.nodes.len(),
            p < u.nodes.len(),
            u.is_copy(NodeId(p as usize), self, NodeId(p as usize)),
            u.nodes[p].kind == self.nodes[p].kind,
        ensures
            others[p] == ends[p],
            same_at(self, u, p),
            same_between(self, u, p + 1, ends[p]),
        decreases self.height(NodeId(p as usize)), self.nodes[p].children.len() + 1,
    {
        let n = NodeId(p as usize);
        assert(self.laid_at(ends, p));
        assert(u.laid_at(others, p));
        let a = self.attributes(n);
        let b = u.attributes(n);
        assert(a.len() == b.len());
        assert(a =~= b) by {
            assert forall|i: int| 0 <= i < a.len() implies a[i] == b[i] by {
                assert(self.attribute_at(p, i));
                assert(u.attribute_at(p, i));
            }
        }
        assert forall|k: int| p + 1 <= k < p + 1 + a.len() implies #[trigger] same_at(self, u, k)
            && self.nodes[k].parent == u.nodes[k].parent by {
            let i = k - p - 1;
            assert(self.attribute_at(p, i));
            assert(u.attribute_at(p, i));
            assert(self.laid_at(ends, k));
            assert(u.laid_at(others, k));
            assert(self.nodes[k].children =~= u.nodes[k].children);
            assert(self.nodes[k].attributes =~= u.nodes[k].attributes);
            assert(u.name(u.attributes(n)[i]) == self.name(self.attributes(n)[i]));
        }
        self.lemma_copies_in_place(u, ends, others, p, 0);
        assert(self.children(n) =~= u.children(n));
    }

    proof fn lemma_copies_in_place(self, u: Tree, ends: Seq<int>, others: Seq<int>, p: int, i: int)
        requires
            self.wf(),
            u.wf(),
            self.laid(ends),
            u.laid(others),
            0 <= p < self.nodes.len(),
            p < u.nodes.len(),
            0 <= i <= self.nodes[p].children.len(),
            self.nodes[p].children.len() == u.nodes[p].children.len(),
            u.are_copies(NodeId(p as usize), self, NodeId(p as usize), i),
            self.begin(ends, p, i) == u.begin(others, p, i),
        ensures
            others[p] == ends[p],
            forall|j: int|
                i <= j < self.nodes[p].children.len() ==> #[trigger] self.nodes[p].children[j]
                    == u.nodes[p].children[j],
            same_between(self, u, self.begin(ends, p, i), ends[p]),
        decreases self.height(NodeId(p as usize)), self.nodes[p].children.len() - i,
    {
        assert(self.laid_at(ends, p));
        assert(u.laid_at(others, p));
        if i < self.nodes[p].children.len() {
            assert(self.child_at(ends, p, i));
            assert(u.child_at(others, p, i));
            let child = self.nodes[p].children[i];
            let c = child.0 as int;
            assert(u.nodes[p].children[i] == child);
            assert(NodeId(c as usize) == child);
            self.lemma_ranking();
            self.lemma_copy_in_place(u, ends, others, c);
            self.lemma_copies_in_place(u, ends, others, p, i + 1);
            assert(self.begin(ends, p, i + 1) == ends[c]);
            assert forall|k: int| c <= k < ends[p] implies #[trigger] same_at(self, u, k)
                && self.nodes[k].parent == u.nodes[k].parent by {
                if k == c {
                    assert(self.parent(child) == u.parent(child));
                }
            }
        }
    }

    /// A document that was read and is a copy of another that was read is
    /// that other: what a document holds settles where it holds it.
    pub proof fn law_copies_of_documents_are_the_same(self, u: Tree)
        requires
            self.as_read(),
            u.as_read(),
            u.is_copy(NodeId(0), self, NodeId(0)),
        ensures
            u == self,
    {
        let ends = choose|ends: Seq<int>| #[trigger] self.is_layout(ends);
        let others = choose|ends: Seq<int>| #[trigger] u.is_layout(ends);
        self.lemma_copy_in_place(u, ends, others, 0);
        assert(u.nodes.len() == self.nodes.len());
        assert(u.nodes =~= self.nodes) by {
            assert forall|k: int| 0 <= k < self.nodes.len() implies u.nodes[k] == self.nodes[k] by {
                if k > 0 {
                    assert(same_at(self, u, k));
                }
            }
        }
        self.lemma_order_whole();
        u.lemma_order_whole();
        assert(u.order =~= self.order);
    }

    /// Every node of a document that was read has a place.
    pub proof fn lemma_order_whole(self)
        requires
            self.as_read(),
        ensures
            self.order.len() == self.nodes.len(),
            forall|k: int| 0 <= k < self.order.len() ==> #[trigger] self.order[k] == k,
    {
        if self.order.len() < self.nodes.len() {
            let n = NodeId(self.order.len() as usize);
            assert(self.document_order(n) == n.0);
        }
        assert forall|k: int| 0 <= k < self.order.len() implies #[trigger] self.order[k] == k by {
            assert(self.document_order(NodeId(k as usize)) == k);
        }
    }

    /// Another value in it leaves a document as it lies.
    pub proof fn law_values_leave_the_layout(self, n: NodeId, value: Seq<char>)
        requires
            self.as_read(),
            self.has(n),
        ensures
            self.with_value(n, value).as_read(),
    {
        let u = self.with_value(n, value);
        self.lemma_with_value_wf(n, value);
        self.lemma_with_value_upright(n, value);
        let ends = choose|ends: Seq<int>| #[trigger] self.is_layout(ends);
        assert forall|k: int| 0 <= k < u.nodes.len() implies u.nodes[k] == (NodeModel {
            value: u.nodes[k].value,
            ..self.nodes[k]
        }) by {}
        assert forall|p: int| 0 <= p < u.nodes.len() implies #[trigger] u.laid_at(ends, p) by {
            assert(self.laid_at(ends, p));
            assert forall|i: int| 0 <= i < u.nodes[p].attributes.len() implies
                #[trigger] u.attribute_at(p, i) by {
                assert(self.attribute_at(p, i));
            }
            assert forall|i: int| 0 <= i < u.nodes[p].children.len() implies #[trigger] u.child_at(
                ends,
                p,
                i,
            ) by {
                assert(self.child_at(ends, p, i));
            }
        }
        assert(u.only_first_is_free()) by {
            assert forall|k: int| 0 < k < u.nodes.len() implies (
            #[trigger] u.nodes[k]).parent is Some by {
                assert(self.nodes[k].parent is Some);
            }
        }
        assert(u.is_layout(ends));
        assert forall|m: NodeId| u.has(m) implies #[trigger] u.document_order(m) == m.0 by {
            assert(self.document_order(m) == m.0);
        }
    }
}

} // verus!
