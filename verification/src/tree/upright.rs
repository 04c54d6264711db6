//! Trees in which every child has one parent.

use crate::tree::edit::{place_after, without};
use crate::tree::{bare_node, NodeId, NodeKind, Tree};
use vstd::prelude::*;

verus! {

impl Tree {
    /// Whether every child has its parent for its parent, and stands among
    /// that one's children once. Documents are read so, and editing keeps
    /// them so.
    pub open spec fn upright(self) -> bool {
        &&& forall|p: int, i: int|
            0 <= p < self.nodes.len() && 0 <= i < self.nodes[p].children.len() ==> self.has(
                #[trigger] self.nodes[p].children[i],
            ) && self.parent(self.nodes[p].children[i]) == Some(NodeId(p as usize))
        &&& forall|p: int, i: int, j: int|
            0 <= p < self.nodes.len() && 0 <= i < j < self.nodes[p].children.len() ==> (
            #[trigger] self.nodes[p].children[i]) != (#[trigger] self.nodes[p].children[j])
    }

    /// Whether no node has a node for a child.
    pub open spec fn unlinked(self, n: NodeId) -> bool {
        forall|p: int, i: int|
            0 <= p < self.nodes.len() && 0 <= i < self.nodes[p].children.len() ==> (
            #[trigger] self.nodes[p].children[i]) != n
    }

    pub proof fn lemma_split_unlinked(self, base: int)
        requires
            self.split_at(base),
            0 <= base <= usize::MAX,
        ensures
            self.unlinked(NodeId(base as usize)),
    {
    }

    pub proof fn lemma_grown_upright(self, kind: NodeKind, name: Seq<char>, value: Seq<char>)
        requires
            self.upright(),
        ensures
            self.grown(bare_node(kind, name, value)).upright(),
    {
        let t = self.grown(bare_node(kind, name, value));
        assert forall|p: int, i: int|
            0 <= p < t.nodes.len() && 0 <= i < t.nodes[p].children.len() implies t.has(
            #[trigger] t.nodes[p].children[i],
        ) && t.parent(t.nodes[p].children[i]) == Some(NodeId(p as usize)) by {
            assert(t.nodes[p] == self.nodes[p]);
            assert(self.has(self.nodes[p].children[i]));
        }
        assert forall|p: int, i: int, j: int|
            0 <= p < t.nodes.len() && 0 <= i < j < t.nodes[p].children.len() implies (
        #[trigger] t.nodes[p].children[i]) != (#[trigger] t.nodes[p].children[j]) by {
            assert(t.nodes[p] == self.nodes[p]);
        }
    }

    pub proof fn lemma_attributed_upright(
        self,
        element: NodeId,
        name: Seq<char>,
        value: Seq<char>,
    )
        requires
            self.upright(),
            self.has(element),
        ensures
            self.attributed(element, name, value).upright(),
    {
        let t = self.attributed(element, name, value);
        assert forall|p: int, i: int|
            0 <= p < t.nodes.len() && 0 <= i < t.nodes[p].children.len() implies t.has(
            #[trigger] t.nodes[p].children[i],
        ) && t.parent(t.nodes[p].children[i]) == Some(NodeId(p as usize)) by {
            assert(t.nodes[p].children == self.nodes[p].children);
            let c = self.nodes[p].children[i];
            assert(self.has(c));
            assert(t.nodes[c.0 as int].parent == self.nodes[c.0 as int].parent);
        }
        assert forall|p: int, i: int, j: int|
            0 <= p < t.nodes.len() && 0 <= i < j < t.nodes[p].children.len() implies (
        #[trigger] t.nodes[p].children[i]) != (#[trigger] t.nodes[p].children[j]) by {
            assert(t.nodes[p].children == self.nodes[p].children);
        }
    }

    pub proof fn lemma_appended_upright(self, parent: NodeId, child: NodeId)
        requires
            self.upright(),
            self.has(parent),
            self.has(child),
            self.unlinked(child),
        ensures
            self.appended(parent, child).upright(),
    {
        let t = self.appended(parent, child);
        assert forall|p: int, i: int|
            0 <= p < t.nodes.len() && 0 <= i < t.nodes[p].children.len() implies t.has(
            #[trigger] t.nodes[p].children[i],
        ) && t.parent(t.nodes[p].children[i]) == Some(NodeId(p as usize)) by {
            if i < self.nodes[p].children.len() {
                let c = self.nodes[p].children[i];
                assert(t.nodes[p].children[i] == c);
                assert(self.has(c));
                assert(c != child);
                assert(t.nodes[c.0 as int].parent == self.nodes[c.0 as int].parent);
            }
        }
        assert forall|p: int, i: int, j: int|
            0 <= p < t.nodes.len() && 0 <= i < j < t.nodes[p].children.len() implies (
        #[trigger] t.nodes[p].children[i]) != (#[trigger] t.nodes[p].children[j]) by {
            assert(t.nodes[p].children[i] == self.nodes[p].children[i]);
            if j < self.nodes[p].children.len() {
                assert(t.nodes[p].children[j] == self.nodes[p].children[j]);
            }
        }
    }

    pub proof fn lemma_inserted_upright(self, sibling: NodeId, n: NodeId)
        requires
            self.upright(),
            self.has(sibling),
            self.has(n),
            self.unlinked(n),
            self.parent(sibling) matches Some(p) ==> self.has(p),
        ensures
            self.inserted_after(sibling, n).upright(),
    {
        if let Some(q) = self.parent(sibling) {
            let t = self.inserted_after(sibling, n);
            let c = self.children(q);
            let at = place_after(c, sibling);
            Self::lemma_place_after(c, sibling);
            assert(t.children(q) == c.insert(at, n));
            assert forall|p: int, i: int|
                0 <= p < t.nodes.len() && 0 <= i < t.nodes[p].children.len() implies t.has(
                #[trigger] t.nodes[p].children[i],
            ) && t.parent(t.nodes[p].children[i]) == Some(NodeId(p as usize)) by {
                if p == q.0 && i == at {
                } else {
                    let k = if p == q.0 && i > at {
                        i - 1
                    } else {
                        i
                    };
                    let m = self.nodes[p].children[k];
                    assert(t.nodes[p].children[i] == m);
                    assert(self.has(m) && m != n);
                    assert(t.nodes[m.0 as int].parent == self.nodes[m.0 as int].parent);
                }
            }
            assert forall|p: int, i: int, j: int|
                0 <= p < t.nodes.len() && 0 <= i < j < t.nodes[p].children.len() implies (
            #[trigger] t.nodes[p].children[i]) != (#[trigger] t.nodes[p].children[j]) by {
                if p != q.0 {
                    assert(t.nodes[p].children == self.nodes[p].children);
                } else {
                    let a = if i > at {
                        i - 1
                    } else {
                        i
                    };
                    let b = if j > at {
                        j - 1
                    } else {
                        j
                    };
                    if i != at {
                        assert(t.nodes[p].children[i] == self.nodes[p].children[a]);
                    }
                    if j != at {
                        assert(t.nodes[p].children[j] == self.nodes[p].children[b]);
                    }
                }
            }
        }
    }

    /// What is left of a list stands in it, in its order.
    proof fn lemma_without_order(s: Seq<NodeId>, n: NodeId)
        requires
            forall|i: int, j: int|
                0 <= i < j < s.len() ==> (#[trigger] s[i]) != (#[trigger] s[j]),
        ensures
            forall|i: int|
                0 <= i < without(s, n).len() ==> s.contains(#[trigger] without(s, n)[i])
                    && without(s, n)[i] != n,
            forall|i: int, j: int|
                0 <= i < j < without(s, n).len() ==> (#[trigger] without(s, n)[i]) != (
                #[trigger] without(s, n)[j]),
        decreases s.len(),
    {
        if s.len() > 0 {
            let r = s.drop_last();
            assert forall|i: int, j: int| 0 <= i < j < r.len() implies (#[trigger] r[i]) != (
            #[trigger] r[j]) by {
                assert(r[i] == s[i] && r[j] == s[j]);
            }
            Self::lemma_without_order(r, n);
            let w = without(s, n);
            let u = without(r, n);
            assert forall|i: int| 0 <= i < w.len() implies s.contains(#[trigger] w[i]) && w[i]
                != n by {
                if i < u.len() {
                    assert(w[i] == u[i]);
                    let k = choose|k: int| 0 <= k < r.len() && r[k] == u[i];
                    assert(s[k] == w[i]);
                } else {
                    assert(s[s.len() - 1] == w[i]);
                }
            }
            assert forall|i: int, j: int| 0 <= i < j < w.len() implies (#[trigger] w[i]) != (
            #[trigger] w[j]) by {
                assert(w[i] == u[i]);
                if j < u.len() {
                    assert(w[j] == u[j]);
                } else {
                    let k = choose|k: int| 0 <= k < r.len() && r[k] == u[i];
                    assert(s[k] == w[i] && s[s.len() - 1] == w[j]);
                }
            }
        }
    }

    pub proof fn lemma_detached_upright(self, n: NodeId)
        requires
            self.upright(),
            self.has(n),
            self.nodes.len() <= usize::MAX,
            self.parent(n) matches Some(p) ==> self.has(p),
        ensures
            self.detached(n).upright(),
    {
        if let Some(q) = self.parent(n) {
            let t = self.detached(n);
            let c = self.children(q);
            assert forall|i: int, j: int| 0 <= i < j < c.len() implies (#[trigger] c[i]) != (
            #[trigger] c[j]) by {
                assert(self.nodes[q.0 as int].children[i] != self.nodes[q.0 as int].children[j]);
            }
            Self::lemma_without_order(c, n);
            assert forall|p: int, i: int|
                0 <= p < t.nodes.len() && 0 <= i < t.nodes[p].children.len() implies t.has(
                #[trigger] t.nodes[p].children[i],
            ) && t.parent(t.nodes[p].children[i]) == Some(NodeId(p as usize)) by {
                let m = t.nodes[p].children[i];
                if p == q.0 {
                    assert(m == without(c, n)[i]);
                    let k = choose|k: int| 0 <= k < c.len() && c[k] == m;
                    assert(self.nodes[p].children[k] == m);
                } else {
                    assert(self.nodes[p].children[i] == m);
                    if m == n {
                        assert(self.parent(n) == Some(NodeId(p as usize)));
                    }
                }
                assert(t.nodes[m.0 as int].parent == self.nodes[m.0 as int].parent);
            }
            assert forall|p: int, i: int, j: int|
                0 <= p < t.nodes.len() && 0 <= i < j < t.nodes[p].children.len() implies (
            #[trigger] t.nodes[p].children[i]) != (#[trigger] t.nodes[p].children[j]) by {
                if p == q.0 {
                    assert(without(c, n)[i] != without(c, n)[j]);
                } else {
                    assert(t.nodes[p].children == self.nodes[p].children);
                }
            }
        }
    }

    pub proof fn lemma_with_value_upright(self, n: NodeId, value: Seq<char>)
        requires
            self.upright(),
            self.has(n),
        ensures
            self.with_value(n, value).upright(),
    {
        let t = self.with_value(n, value);
        assert forall|p: int, i: int|
            0 <= p < t.nodes.len() && 0 <= i < t.nodes[p].children.len() implies t.has(
            #[trigger] t.nodes[p].children[i],
        ) && t.parent(t.nodes[p].children[i]) == Some(NodeId(p as usize)) by {
            assert(t.nodes[p].children == self.nodes[p].children);
            let c = self.nodes[p].children[i];
            assert(self.has(c));
            assert(t.nodes[c.0 as int].parent == self.nodes[c.0 as int].parent);
        }
        assert forall|p: int, i: int, j: int|
            0 <= p < t.nodes.len() && 0 <= i < j < t.nodes[p].children.len() implies (
        #[trigger] t.nodes[p].children[i]) != (#[trigger] t.nodes[p].children[j]) by {
            assert(t.nodes[p].children == self.nodes[p].children);
        }
    }

    pub proof fn lemma_same_nodes_upright(self, that: Tree)
        requires
            self.upright(),
            that.nodes == self.nodes,
        ensures
            that.upright(),
    {
        assert forall|p: int, i: int|
            0 <= p < that.nodes.len() && 0 <= i < that.nodes[p].children.len() implies that.has(
            #[trigger] that.nodes[p].children[i],
        ) && that.parent(that.nodes[p].children[i]) == Some(NodeId(p as usize)) by {
            assert(self.has(self.nodes[p].children[i]));
        }
    }
}

} // verus!
