//! What is done to a document leaves it hanging together.

use crate::tree::edit::{place_after, without};
use crate::tree::layout::numbered;
use crate::tree::{bare_node, NodeId, NodeKind, NodeModel, Tree};
use vstd::prelude::*;

verus! {

impl Tree {
    /// Whether a node is an attribute of another.
    pub open spec fn is_attribute(self, x: NodeId) -> bool {
        exists|p: NodeId, i: int|
            self.has(p) && 0 <= i < self.attributes(p).len() && #[trigger] self.attributes(p)[i]
                == x
    }

    proof fn lemma_free(self, x: NodeId)
        requires
            self.all_apart(),
            self.parent(x) is None,
        ensures
            !self.is_attribute(x),
    {
        if self.is_attribute(x) {
            let (p, i) = choose|p: NodeId, i: int|
                self.has(p) && 0 <= i < self.attributes(p).len() && #[trigger] self.attributes(
                    p,
                )[i] == x;
            assert(self.attributes_apart(p));
        }
    }

    pub proof fn lemma_child_is_none(self, p: NodeId, x: NodeId)
        requires
            self.all_apart(),
            self.has(p),
            self.parent(x) == Some(p),
            self.children(p).contains(x),
        ensures
            !self.is_attribute(x),
    {
        if self.is_attribute(x) {
            let (q, i) = choose|q: NodeId, i: int|
                self.has(q) && 0 <= i < self.attributes(q).len() && #[trigger] self.attributes(
                    q,
                )[i] == x;
            assert(self.attributes_apart(q));
            assert(self.parent(self.attributes(q)[i]) == Some(q));
        }
    }

    pub proof fn lemma_root_is_none(self, root: NodeId)
        requires
            self.hangs_together(root),
        ensures
            self.has(root),
            !self.is_attribute(root),
    {
        self.lemma_free(root);
    }

    /// What is no attribute becomes none where nodes are added that nothing
    /// before them links to.
    pub proof fn lemma_stays_none(self, u: Tree, x: NodeId)
        requires
            self.wf(),
            self.has(x),
            !self.is_attribute(x),
            u.wf(),
            u.all_apart(),
            u.extends(self),
            u.split_at(self.nodes.len() as int),
        ensures
            !u.is_attribute(x),
    {
        if u.is_attribute(x) {
            let (p, i) = choose|p: NodeId, i: int|
                u.has(p) && 0 <= i < u.attributes(p).len() && #[trigger] u.attributes(p)[i] == x;
            assert(u.attributes_apart(p));
            assert(u.parent(u.attributes(p)[i]) == Some(p));
            assert(u.nodes[x.0 as int] == self.nodes[x.0 as int]);
            assert(self.nodes[x.0 as int].parent == Some(p));
            assert(self.has(p));
            assert(u.nodes[p.0 as int] == self.nodes[p.0 as int]);
            assert(self.attributes(p)[i] == x);
        }
    }

    /// Attributes stay apart where they are left as they are, and gain no
    /// place among the children.
    proof fn lemma_left_apart(self, u: Tree)
        requires
            self.wf(),
            self.all_apart(),
            self.nodes.len() <= u.nodes.len(),
            forall|p: NodeId| #[trigger] self.has(p) ==> u.attributes(p) == self.attributes(p),
            forall|x: NodeId| #[trigger]
                self.is_attribute(x) ==> u.parent(x) == self.parent(x) && u.children(x).len() == 0
                    && forall|p: NodeId| #[trigger]
                    self.has(p) && self.parent(x) == Some(p) ==> !u.children(p).contains(x),
            forall|p: NodeId|
                u.has(p) && !self.has(p) ==> (#[trigger] u.attributes(p)).len() == 0,
        ensures
            u.all_apart(),
    {
        assert forall|p: NodeId| #[trigger] u.has(p) implies u.attributes_apart(p) by {
            if self.has(p) {
                assert(self.attributes_apart(p));
                self.lemma_children_in(p);
                let a = self.attributes(p);
                assert(u.attributes(p) == a);
                assert forall|i: int| 0 <= i < a.len() implies u.parent(#[trigger] u.attributes(p)[i])
                    == Some(p) && u.children(u.attributes(p)[i]).len() == 0 && u.attributes(
                    u.attributes(p)[i],
                ).len() == 0 && !u.children(p).contains(u.attributes(p)[i]) by {
                    let x = self.attributes(p)[i];
                    assert(self.is_attribute(x));
                    assert(self.has(a[i]));
                    assert(u.attributes(x) == self.attributes(x));
                }
            } else {
                assert(u.attributes(p).len() == 0);
            }
        }
    }

    pub proof fn lemma_grown_apart(self, name: Seq<char>, value: Seq<char>)
        requires
            self.wf(),
            self.all_apart(),
            self.nodes.len() < usize::MAX,
        ensures
            self.grown(bare_node(NodeKind::Element, name, value)).all_apart(),
    {
        let u = self.grown(bare_node(NodeKind::Element, name, value));
        assert forall|x: NodeId| #[trigger] self.is_attribute(x) implies u.parent(x)
            == self.parent(x) && u.children(x).len() == 0 && forall|p: NodeId| #[trigger]
            self.has(p) && self.parent(x) == Some(p) ==> !u.children(p).contains(x) by {
            self.lemma_attribute(x);
        }
        self.lemma_left_apart(u);
    }

    /// What an attribute is.
    proof fn lemma_attribute(self, x: NodeId)
        requires
            self.wf(),
            self.all_apart(),
            self.is_attribute(x),
        ensures
            self.has(x),
            self.parent(x) is Some,
            self.has(self.parent(x)->0),
            self.children(x).len() == 0,
            !self.children(self.parent(x)->0).contains(x),
    {
        let (p, i) = choose|p: NodeId, i: int|
            self.has(p) && 0 <= i < self.attributes(p).len() && #[trigger] self.attributes(p)[i]
                == x;
        assert(self.attributes_apart(p));
        self.lemma_children_in(p);
        assert(self.has(self.attributes(p)[i]));
    }

    pub proof fn lemma_attributed_apart(self, element: NodeId, name: Seq<char>, value: Seq<char>)
        requires
            self.wf(),
            self.all_apart(),
            self.has(element),
            self.parent(element) is None,
            self.nodes.len() < usize::MAX,
        ensures
            self.attributed(element, name, value).all_apart(),
            self.attributed(element, name, value).parent(element) is None,
    {
        let u = self.attributed(element, name, value);
        let id = NodeId(self.nodes.len() as usize);
        self.lemma_free(element);
        assert forall|p: NodeId| #[trigger] u.has(p) implies u.attributes_apart(p) by {
            if self.has(p) {
                assert(self.attributes_apart(p));
                self.lemma_children_in(p);
                let a = self.attributes(p);
                assert(u.children(p) == self.children(p));
                assert forall|i: int|
                    0 <= i < u.attributes(p).len() implies u.parent(#[trigger] u.attributes(p)[i])
                    == Some(p) && u.children(u.attributes(p)[i]).len() == 0 && u.attributes(
                    u.attributes(p)[i],
                ).len() == 0 && !u.children(p).contains(u.attributes(p)[i]) by {
                    if i < a.len() {
                        let x = self.attributes(p)[i];
                        assert(u.attributes(p)[i] == x);
                        assert(self.is_attribute(x));
                        assert(self.has(a[i]));
                        assert(u.nodes[x.0 as int] == self.nodes[x.0 as int]);
                    } else {
                        assert(u.attributes(p)[i] == id);
                        if u.children(p).contains(id) {
                            let k = choose|k: int|
                                0 <= k < self.children(p).len() && self.children(p)[k] == id;
                            assert(self.has(self.children(p)[k]));
                        }
                    }
                }
                assert(u.attributes(p).no_duplicates()) by {
                    assert forall|i: int, j: int|
                        0 <= i < u.attributes(p).len() && 0 <= j < u.attributes(p).len() && i
                            != j implies u.attributes(p)[i] != u.attributes(p)[j] by {
                        if i < a.len() {
                            assert(u.attributes(p)[i] == a[i]);
                            assert(self.has(a[i]));
                        }
                        if j < a.len() {
                            assert(u.attributes(p)[j] == a[j]);
                            assert(self.has(a[j]));
                        }
                    }
                }
            } else {
                assert(u.nodes[p.0 as int].attributes.len() == 0);
            }
        }
    }

    pub proof fn lemma_appended_apart(self, parent: NodeId, child: NodeId)
        requires
            self.wf(),
            self.all_apart(),
            self.has(parent),
            self.has(child),
            self.parent(child) is None,
            parent != child,
            !self.is_attribute(parent),
        ensures
            self.appended(parent, child).all_apart(),
            self.appended(parent, child).parent(parent) == self.parent(parent),
    {
        let u = self.appended(parent, child);
        self.lemma_free(child);
        assert forall|x: NodeId| #[trigger] self.is_attribute(x) implies u.parent(x)
            == self.parent(x) && u.children(x).len() == 0 && forall|p: NodeId| #[trigger]
            self.has(p) && self.parent(x) == Some(p) ==> !u.children(p).contains(x) by {
            self.lemma_attribute(x);
            let p = self.parent(x)->0;
            if u.children(p).contains(x) {
                let k = choose|k: int| 0 <= k < u.children(p).len() && u.children(p)[k] == x;
                if k < self.children(p).len() {
                    assert(self.children(p)[k] == x);
                }
            }
        }
        self.lemma_left_apart(u);
    }

    pub proof fn lemma_inserted_apart(self, sibling: NodeId, n: NodeId)
        requires
            self.wf(),
            self.all_apart(),
            self.has(sibling),
            self.has(n),
            self.parent(n) is None,
            self.parent(sibling) != Some(n),
        ensures
            self.inserted_after(sibling, n).all_apart(),
    {
        if let Some(q) = self.parent(sibling) {
            let u = self.inserted_after(sibling, n);
            self.lemma_free(n);
            self.lemma_parent(sibling);
            let c = self.children(q);
            let at = place_after(c, sibling);
            Self::lemma_place_after(c, sibling);
            assert(u.children(q) == c.insert(at, n));
            assert(self.nodes[sibling.0 as int].parent == Some(q));
            assert forall|x: NodeId| #[trigger] self.is_attribute(x) implies u.parent(x)
                == self.parent(x) && u.children(x).len() == 0 && forall|p: NodeId| #[trigger]
                self.has(p) && self.parent(x) == Some(p) ==> !u.children(p).contains(x) by {
                self.lemma_attribute(x);
                if x == q {
                    // What holds a sibling is no attribute.
                    let (p, i) = choose|p: NodeId, i: int|
                        self.has(p) && 0 <= i < self.attributes(p).len()
                            && #[trigger] self.attributes(p)[i] == x;
                    assert(self.attributes_apart(p));
                    assert(self.attributes(self.attributes(p)[i]).len() == 0);
                    assert(self.children(q).contains(sibling) || self.attributes(q).contains(
                        sibling,
                    ));
                    assert(false);
                }
                let p = self.parent(x)->0;
                if u.children(p).contains(x) {
                    let k = choose|k: int| 0 <= k < u.children(p).len() && u.children(p)[k] == x;
                    if p == q {
                        let j = if k > at {
                            k - 1
                        } else {
                            k
                        };
                        if k != at {
                            assert(c[j] == x);
                        }
                    } else {
                        assert(self.children(p)[k] == x);
                    }
                }
            }
            self.lemma_left_apart(u);
        }
    }

    pub proof fn lemma_without_holds(s: Seq<NodeId>, n: NodeId, x: NodeId)
        requires
            without(s, n).contains(x),
        ensures
            s.contains(x),
        decreases s.len(),
    {
        if s.len() > 0 {
            let d = s.drop_last();
            let w = without(s, n);
            let k = choose|k: int| 0 <= k < w.len() && w[k] == x;
            if k < without(d, n).len() {
                assert(without(d, n)[k] == x);
                Self::lemma_without_holds(d, n, x);
                let j = choose|j: int| 0 <= j < d.len() && d[j] == x;
                assert(s[j] == x);
            } else {
                assert(s[s.len() - 1] == x);
            }
        }
    }

    pub proof fn lemma_detached_apart(self, p: NodeId, n: NodeId)
        requires
            self.wf(),
            self.all_apart(),
            self.has(n),
            self.has(p),
            self.parent(n) == Some(p),
            self.children(p).contains(n),
        ensures
            self.detached(n).all_apart(),
    {
        let u = self.detached(n);
        self.lemma_child_is_none(p, n);
        assert forall|x: NodeId| #[trigger] self.is_attribute(x) implies u.parent(x)
            == self.parent(x) && u.children(x).len() == 0 && forall|q: NodeId| #[trigger]
            self.has(q) && self.parent(x) == Some(q) ==> !u.children(q).contains(x) by {
            self.lemma_attribute(x);
            let q = self.parent(x)->0;
            if x == p {
                let k = choose|k: int| 0 <= k < self.children(p).len() && self.children(p)[k] == n;
            }
            if u.children(q).contains(x) && q == p {
                Self::lemma_without_holds(self.children(p), n, x);
            }
        }
        self.lemma_left_apart(u);
    }

    // -----------------------------------------------------------------------
    // Copies
    // -----------------------------------------------------------------------

    proof fn lemma_copies_apart(self, base: int, element: NodeId, source: Tree, s: Seq<NodeId>)
        requires
            self.wf(),
            self.split_at(base),
            0 <= base <= element.0 < self.nodes.len(),
            self.nodes.len() + s.len() <= usize::MAX,
            self.all_apart(),
            self.parent(element) is None,
        ensures
            self.with_copies(element, source, s).all_apart(),
            self.with_copies(element, source, s).parent(element) is None,
        decreases s.len(),
    {
        if s.len() > 0 {
            let r = s.drop_last();
            self.lemma_copies_linked(base, element, source, r);
            self.lemma_with_copies(self, element, source, r);
            self.lemma_copies_apart(base, element, source, r);
            let u = self.with_copies(element, source, r);
            u.lemma_attributed_apart(element, source.name(s.last()), source.value(s.last()));
        }
    }

    /// What is copied into a tree keeps its attributes apart.
    pub proof fn lemma_adopted_apart(self, source: Tree, n: NodeId)
        requires
            self.wf(),
            source.wf(),
            source.has(n),
            self.nodes.len() + source.size(n) <= usize::MAX,
            self.all_apart(),
        ensures
            self.adopted(source, n).all_apart(),
            self.adopted(source, n).parent(NodeId(self.nodes.len() as usize)) is None,
        decreases source.height(n), source.children(n).len() + 1,
    {
        let id = NodeId(self.nodes.len() as usize);
        let base = self.nodes.len() as int;
        let ids = source.attributes(n);
        let x = self.grown(bare_node(NodeKind::Element, source.name(n), source.value(n)));
        self.lemma_grown_wf(NodeKind::Element, source.name(n), source.value(n));
        self.lemma_grown_split(NodeKind::Element, source.name(n), source.value(n));
        self.lemma_grown_apart(source.name(n), source.value(n));
        x.lemma_copies_linked(base, id, source, ids);
        x.lemma_with_copies(x, id, source, ids);
        x.lemma_copies_apart(base, id, source, ids);
        let w = x.with_copies(id, source, ids);
        w.lemma_below_apart(base, source, n, 0, id);
    }

    proof fn lemma_below_apart(self, base: int, source: Tree, n: NodeId, i: int, id: NodeId)
        requires
            self.wf(),
            self.split_at(base),
            source.wf(),
            source.has(n),
            0 <= i,
            0 <= base <= id.0 < self.nodes.len(),
            self.nodes.len() + source.size_below(n, i) <= usize::MAX,
            self.all_apart(),
            self.parent(id) is None,
        ensures
            self.adopted_below(source, n, i, id).all_apart(),
            self.adopted_below(source, n, i, id).parent(id) is None,
        decreases source.height(n), source.children(n).len() - i,
    {
        if i < source.children(n).len() {
            let child = source.children(n)[i];
            source.lemma_ranking();
            source.lemma_children_in(n);
            assert(source.nodes[n.0 as int].children[i] == child);
            let c = NodeId(self.nodes.len() as usize);
            let u = self.adopted(source, child);
            self.lemma_adopted(self, source, child);
            self.lemma_adopted_linked(source, child);
            self.lemma_adopted_apart(source, child);
            u.lemma_split_can_hold(self.nodes.len() as int, id, c);
            u.lemma_appended_wf(id, c);
            u.lemma_extended_split(self, base);
            u.lemma_appended_split(base, id, c);
            assert(u.nodes[id.0 as int] == self.nodes[id.0 as int]);
            u.lemma_free(id);
            u.lemma_appended_apart(id, c);
            u.appended(id, c).lemma_below_apart(base, source, n, i + 1, id);
        }
    }

    // -----------------------------------------------------------------------
    // Documents
    // -----------------------------------------------------------------------

    /// A document that was read hangs together.
    pub proof fn law_documents_hang_together(self)
        requires
            self.as_read(),
        ensures
            self.hangs_together(NodeId(0)),
    {
        let root = NodeId(0);
        let ends = choose|ends: Seq<int>| #[trigger] self.is_layout(ends);
        self.lemma_visit_laid(ends, 0);
        self.lemma_order_whole();
        assert(self.visit(root, true) == numbered(0, self.nodes.len()));
        let o = self.reindexed().order;
        assert(self.order =~= o) by {
            assert forall|k: int| 0 <= k < self.order.len() implies self.order[k] == o[k] by {
                Self::lemma_numbered_place(self.nodes.len(), k);
                assert(self.order[k] == k);
            }
        }
        assert forall|p: NodeId| #[trigger] self.has(p) implies self.attributes_apart(p) by {
            let k = p.0 as int;
            assert(NodeId(k as usize) == p);
            assert(self.laid_at(ends, k));
            let a = self.attributes(p);
            assert forall|i: int| 0 <= i < a.len() implies self.parent(
                #[trigger] self.attributes(p)[i],
            ) == Some(p) && self.children(self.attributes(p)[i]).len() == 0 && self.attributes(
                self.attributes(p)[i],
            ).len() == 0 && !self.children(p).contains(self.attributes(p)[i]) by {
                assert(self.attribute_at(k, i));
                assert(self.laid_at(ends, k + 1 + i));
                if self.children(p).contains(a[i]) {
                    let j = choose|j: int|
                        0 <= j < self.children(p).len() && self.children(p)[j] == a[i];
                    assert(self.child_at(ends, k, j));
                }
            }
            assert forall|i: int, j: int| 0 <= i < a.len() && 0 <= j < a.len() && i != j implies a[i]
                != a[j] by {
                assert(self.attribute_at(k, i));
                assert(self.attribute_at(k, j));
            }
        }
    }

    /// Another value in it leaves a tree hanging together.
    pub proof fn law_values_leave_it_together(self, root: NodeId, n: NodeId, value: Seq<char>)
        requires
            self.hangs_together(root),
            self.has(n),
        ensures
            self.with_value(n, value).hangs_together(root),
    {
        let u = self.with_value(n, value);
        self.lemma_with_value_wf(n, value);
        self.lemma_with_value_upright(n, value);
        assert forall|k: int| 0 <= k < u.nodes.len() implies u.nodes[k] == (NodeModel {
            value: u.nodes[k].value,
            ..self.nodes[k]
        }) by {}
        assert forall|p: NodeId| #[trigger] u.has(p) implies u.attributes_apart(p) by {
            assert(self.has(p));
            assert(self.attributes_apart(p));
            self.lemma_children_in(p);
            let a = self.attributes(p);
            assert forall|i: int| 0 <= i < a.len() implies u.parent(#[trigger] u.attributes(p)[i])
                == Some(p) && u.children(u.attributes(p)[i]).len() == 0 && u.attributes(
                u.attributes(p)[i],
            ).len() == 0 && !u.children(p).contains(u.attributes(p)[i]) by {
                assert(self.has(a[i]));
                assert(self.parent(self.attributes(p)[i]) == Some(p));
            }
        }
        self.lemma_visit_shape(u, root);
        assert(u.reindexed().order =~= self.reindexed().order);
    }

    pub proof fn lemma_visit_shape(self, u: Tree, n: NodeId)
        requires
            self.wf(),
            u.wf(),
            self.has(n),
            self.nodes.len() == u.nodes.len(),
            forall|k: int|
                0 <= k < self.nodes.len() ==> (#[trigger] u.nodes[k]).children
                    == self.nodes[k].children && u.nodes[k].attributes == self.nodes[k].attributes,
        ensures
            u.visit(n, true) == self.visit(n, true),
        decreases self.height(n), self.children(n).len() + 1,
    {
        assert(u.nodes[n.0 as int].children == self.nodes[n.0 as int].children);
        self.lemma_below_shape(u, n, 0);
    }

    proof fn lemma_below_shape(self, u: Tree, n: NodeId, i: int)
        requires
            self.wf(),
            u.wf(),
            self.has(n),
            0 <= i,
            self.nodes.len() == u.nodes.len(),
            forall|k: int|
                0 <= k < self.nodes.len() ==> (#[trigger] u.nodes[k]).children
                    == self.nodes[k].children && u.nodes[k].attributes == self.nodes[k].attributes,
        ensures
            u.below(n, i, true) == self.below(n, i, true),
        decreases self.height(n), self.children(n).len() - i,
    {
        assert(u.nodes[n.0 as int].children == self.nodes[n.0 as int].children);
        if i < self.children(n).len() {
            self.lemma_ranking();
            self.lemma_children_in(n);
            let child = self.children(n)[i];
            assert(self.nodes[n.0 as int].children[i] == child);
            assert(self.has(child));
            self.lemma_visit_shape(u, child);
            self.lemma_below_shape(u, n, i + 1);
        }
    }

    /// A tree whose order is computed anew hangs together where its parts
    /// do.
    pub proof fn lemma_reindexed_together(self, root: NodeId)
        requires
            self.wf(),
            self.upright(),
            self.all_apart(),
            self.root == Some(root),
            self.parent(root) is None,
        ensures
            self.reindexed().hangs_together(root),
    {
        let u = self.reindexed();
        self.law_reindexed_once();
        self.lemma_same_nodes_upright(u);
        assert forall|p: NodeId| #[trigger] u.has(p) implies u.attributes_apart(p) by {
            assert(self.has(p));
            assert(self.attributes_apart(p));
            let a = self.attributes(p);
            assert forall|i: int| 0 <= i < a.len() implies u.parent(#[trigger] u.attributes(p)[i])
                == Some(p) && u.children(u.attributes(p)[i]).len() == 0 && u.attributes(
                u.attributes(p)[i],
            ).len() == 0 && !u.children(p).contains(u.attributes(p)[i]) by {
                assert(self.parent(self.attributes(p)[i]) == Some(p));
            }
        }
    }
}

} // verus!
