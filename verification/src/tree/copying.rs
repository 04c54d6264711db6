//! What a copied subtree is made of.

use crate::tree::{bare_node, NodeId, NodeKind, NodeModel, Tree};
use vstd::prelude::*;

verus! {

proof fn lemma_whole(s: Seq<NodeId>)
    ensures
        s.take(s.len() as int) == s,
        s.skip(s.len() as int) == Seq::<NodeId>::empty(),
{
}

impl Tree {
    /// How many nodes a node and all below it are, attributes among them.
    pub open spec fn size(self, n: NodeId) -> nat
        decreases self.height(n), self.children(n).len() + 1,
        when self.wf() && self.has(n)
    {
        1 + self.attributes(n).len() + self.size_below(n, 0)
    }

    /// How many nodes are below a node, from its child `i` on.
    pub open spec fn size_below(self, n: NodeId, i: int) -> nat
        decreases self.height(n), self.children(n).len() - i,
        when self.wf() && self.has(n) && 0 <= i
    {
        if i >= self.children(n).len() {
            0
        } else {
            self.size(self.children(n)[i]) + self.size_below(n, i + 1)
        }
    }

    /// Whether a tree is another with nodes added after its own, which are
    /// as they are here, `id` aside: that one may have more links down.
    pub open spec fn grew_from(self, before: Tree, id: NodeId) -> bool {
        &&& self.nodes.len() >= before.nodes.len()
        &&& self.root == before.root
        &&& self.order == before.order
        &&& forall|j: int|
            0 <= j < before.nodes.len() && j != id.0 ==> #[trigger] self.nodes[j]
                == before.nodes[j]
        &&& id.0 < before.nodes.len() ==> self.node(id) == (NodeModel {
            children: self.children(id),
            attributes: self.attributes(id),
            ..before.node(id)
        })
    }

    /// Whether two trees that grew from two others grew by the same.
    pub open spec fn grew_alike(self, before: Tree, that: Tree, that_before: Tree, id: NodeId) -> bool {
        &&& self.nodes.len() == that.nodes.len()
        &&& forall|j: int|
            before.nodes.len() <= j < self.nodes.len() ==> #[trigger] self.nodes[j]
                == that.nodes[j]
        &&& id.0 < before.nodes.len() ==> {
            &&& before.children(id).len() <= self.children(id).len()
            &&& that_before.children(id).len() <= that.children(id).len()
            &&& self.children(id).take(before.children(id).len() as int) == before.children(id)
            &&& that.children(id).take(that_before.children(id).len() as int)
                == that_before.children(id)
            &&& self.children(id).skip(before.children(id).len() as int) == that.children(id).skip(
                that_before.children(id).len() as int,
            )
            &&& before.attributes(id).len() <= self.attributes(id).len()
            &&& that_before.attributes(id).len() <= that.attributes(id).len()
            &&& self.attributes(id).take(before.attributes(id).len() as int) == before.attributes(
                id,
            )
            &&& that.attributes(id).take(that_before.attributes(id).len() as int)
                == that_before.attributes(id)
            &&& self.attributes(id).skip(before.attributes(id).len() as int)
                == that.attributes(id).skip(that_before.attributes(id).len() as int)
        }
    }

    /// Copied attributes are the same wherever they are put.
    pub proof fn lemma_with_copies(
        self,
        that: Tree,
        element: NodeId,
        source: Tree,
        s: Seq<NodeId>,
    )
        requires
            self.nodes.len() == that.nodes.len(),
            element.0 < self.nodes.len(),
            self.nodes.len() + s.len() <= usize::MAX,
        ensures
            self.with_copies(element, source, s).nodes.len() == self.nodes.len() + s.len(),
            self.with_copies(element, source, s).grew_from(self, element),
            that.with_copies(element, source, s).grew_from(that, element),
            self.with_copies(element, source, s).grew_alike(
                self,
                that.with_copies(element, source, s),
                that,
                element,
            ),
            self.with_copies(element, source, s).children(element) == self.children(element),
            that.with_copies(element, source, s).children(element) == that.children(element),
        decreases s.len(),
    {
        let a = self.with_copies(element, source, s);
        let b = that.with_copies(element, source, s);
        lemma_whole(self.children(element));
        lemma_whole(that.children(element));
        lemma_whole(self.attributes(element));
        lemma_whole(that.attributes(element));
        if s.len() > 0 {
            self.lemma_with_copies(that, element, source, s.drop_last());
            let a0 = self.with_copies(element, source, s.drop_last());
            let b0 = that.with_copies(element, source, s.drop_last());
            let id = NodeId(a0.nodes.len() as usize);
            assert(a == a0.attributed(element, source.name(s.last()), source.value(s.last())));
            assert(b == b0.attributed(element, source.name(s.last()), source.value(s.last())));
            assert(a.attributes(element) == a0.attributes(element).push(id));
            assert(b.attributes(element) == b0.attributes(element).push(id));
            let la = self.attributes(element).len() as int;
            let lb = that.attributes(element).len() as int;
            assert(a.attributes(element).take(la) == a0.attributes(element).take(la));
            assert(b.attributes(element).take(lb) == b0.attributes(element).take(lb));
            assert(a.attributes(element).skip(la) == a0.attributes(element).skip(la).push(id));
            assert(b.attributes(element).skip(lb) == b0.attributes(element).skip(lb).push(id));
        }
    }

    /// A copy is the same wherever it is put.
    pub proof fn lemma_adopted(self, that: Tree, source: Tree, n: NodeId)
        requires
            source.wf(),
            source.has(n),
            self.nodes.len() == that.nodes.len(),
            self.nodes.len() + source.size(n) <= usize::MAX,
        ensures
            self.adopted(source, n).nodes.len() == self.nodes.len() + source.size(n),
            self.adopted(source, n).grew_from(self, NodeId(self.nodes.len() as usize)),
            that.adopted(source, n).grew_from(that, NodeId(self.nodes.len() as usize)),
            self.adopted(source, n).grew_alike(
                self,
                that.adopted(source, n),
                that,
                NodeId(self.nodes.len() as usize),
            ),
        decreases source.height(n), source.children(n).len() + 1,
    {
        let id = NodeId(self.nodes.len() as usize);
        let fresh = bare_node(NodeKind::Element, source.name(n), source.value(n));
        let a = self.grown(fresh);
        let b = that.grown(fresh);
        a.lemma_with_copies(b, id, source, source.attributes(n));
        let a1 = a.with_copies(id, source, source.attributes(n));
        let b1 = b.with_copies(id, source, source.attributes(n));
        a1.lemma_adopted_below(b1, source, n, 0, id);
        let a2 = a1.adopted_below(source, n, 0, id);
        let b2 = b1.adopted_below(source, n, 0, id);
        assert(a2 == self.adopted(source, n));
        assert(b2 == that.adopted(source, n));
        assert(a1.children(id) == Seq::<NodeId>::empty());
        assert(a2.node(id) == b2.node(id)) by {
            assert(a1.node(id) == b1.node(id)) by {
                assert(a1.attributes(id).take(0) + a1.attributes(id).skip(0) == a1.attributes(id));
                assert(b1.attributes(id).take(0) + b1.attributes(id).skip(0) == b1.attributes(id));
                b.lemma_with_copies(a, id, source, source.attributes(n));
            }
            assert(a2.children(id).take(0) + a2.children(id).skip(0) == a2.children(id));
            assert(b2.children(id).take(0) + b2.children(id).skip(0) == b2.children(id));
            let la = a1.attributes(id).len() as int;
            assert(a2.attributes(id).take(la) + a2.attributes(id).skip(la) == a2.attributes(id));
            assert(b2.attributes(id).take(la) + b2.attributes(id).skip(la) == b2.attributes(id));
        }
        assert forall|j: int|
            self.nodes.len() <= j < a2.nodes.len() implies #[trigger] a2.nodes[j]
            == b2.nodes[j] by {
            if j > id.0 && j < a1.nodes.len() {
                assert(a2.nodes[j] == a1.nodes[j]);
                assert(b2.nodes[j] == b1.nodes[j]);
                assert(a1.nodes[j] == b1.nodes[j]);
            }
        }
        assert forall|j: int| 0 <= j < self.nodes.len() implies #[trigger] a2.nodes[j]
            == self.nodes[j] by {
            assert(a1.nodes[j] == a.nodes[j]);
        }
        assert forall|j: int| 0 <= j < that.nodes.len() implies #[trigger] b2.nodes[j]
            == that.nodes[j] by {
            assert(b1.nodes[j] == b.nodes[j]);
        }
    }

    /// Copies of children are the same wherever they are put.
    pub proof fn lemma_adopted_below(self, that: Tree, source: Tree, n: NodeId, i: int, id: NodeId)
        requires
            source.wf(),
            source.has(n),
            0 <= i,
            self.nodes.len() == that.nodes.len(),
            id.0 < self.nodes.len(),
            self.nodes.len() + source.size_below(n, i) <= usize::MAX,
        ensures
            self.adopted_below(source, n, i, id).nodes.len() == self.nodes.len()
                + source.size_below(n, i),
            self.adopted_below(source, n, i, id).grew_from(self, id),
            that.adopted_below(source, n, i, id).grew_from(that, id),
            self.adopted_below(source, n, i, id).grew_alike(
                self,
                that.adopted_below(source, n, i, id),
                that,
                id,
            ),
            self.adopted_below(source, n, i, id).attributes(id) == self.attributes(id),
            that.adopted_below(source, n, i, id).attributes(id) == that.attributes(id),
        decreases source.height(n), source.children(n).len() - i,
    {
        let a3 = self.adopted_below(source, n, i, id);
        let b3 = that.adopted_below(source, n, i, id);
        lemma_whole(self.children(id));
        lemma_whole(that.children(id));
        lemma_whole(self.attributes(id));
        lemma_whole(that.attributes(id));
        if i < source.children(n).len() {
            let child = source.children(n)[i];
            source.lemma_ranking();
            source.lemma_children_in(n);
            assert(source.nodes[n.0 as int].children[i] == child);
            self.lemma_adopted(that, source, child);
            let c = NodeId(self.nodes.len() as usize);
            let a1 = self.adopted(source, child);
            let b1 = that.adopted(source, child);
            let a2 = a1.appended(id, c);
            let b2 = b1.appended(id, c);
            assert(a1.nodes[id.0 as int] == self.nodes[id.0 as int]);
            assert(b1.nodes[id.0 as int] == that.nodes[id.0 as int]);
            a2.lemma_adopted_below(b2, source, n, i + 1, id);
            let la = self.children(id).len() as int;
            let lb = that.children(id).len() as int;
            assert(a2.children(id) == self.children(id).push(c));
            assert(b2.children(id) == that.children(id).push(c));
            assert(a3.children(id).take(la) == a3.children(id).take(la + 1).take(la));
            assert(b3.children(id).take(lb) == b3.children(id).take(lb + 1).take(lb));
            assert(a3.children(id).take(la) == self.children(id));
            assert(b3.children(id).take(lb) == that.children(id));
            assert(a3.children(id).skip(la) == seq![c] + a3.children(id).skip(la + 1)) by {
                assert(a3.children(id)[la] == a3.children(id).take(la + 1)[la]);
            }
            assert(b3.children(id).skip(lb) == seq![c] + b3.children(id).skip(lb + 1)) by {
                assert(b3.children(id)[lb] == b3.children(id).take(lb + 1)[lb]);
            }
            assert forall|j: int|
                self.nodes.len() <= j < a3.nodes.len() implies #[trigger] a3.nodes[j]
                == b3.nodes[j] by {
                if j < a2.nodes.len() {
                    assert(a3.nodes[j] == a2.nodes[j]);
                    assert(b3.nodes[j] == b2.nodes[j]);
                    assert(a1.nodes[j] == b1.nodes[j]);
                }
            }
            assert forall|j: int|
                0 <= j < self.nodes.len() && j != id.0 implies #[trigger] a3.nodes[j]
                == self.nodes[j] by {
                assert(a3.nodes[j] == a2.nodes[j]);
                assert(a2.nodes[j] == a1.nodes[j]);
            }
            assert forall|j: int|
                0 <= j < that.nodes.len() && j != id.0 implies #[trigger] b3.nodes[j]
                == that.nodes[j] by {
                assert(b3.nodes[j] == b2.nodes[j]);
                assert(b2.nodes[j] == b1.nodes[j]);
            }
        }
    }

    /// The root of a copy has the name it was copied with.
    pub proof fn lemma_adopted_named(self, source: Tree, n: NodeId)
        requires
            source.wf(),
            source.has(n),
            self.nodes.len() + source.size(n) <= usize::MAX,
        ensures
            self.adopted(source, n).name(NodeId(self.nodes.len() as usize)) == source.name(n),
    {
        let id = NodeId(self.nodes.len() as usize);
        let x = self.grown(bare_node(NodeKind::Element, source.name(n), source.value(n)));
        let w = x.with_copies(id, source, source.attributes(n));
        x.lemma_with_copies(x, id, source, source.attributes(n));
        w.lemma_adopted_below(w, source, n, 0, id);
    }

    /// A copy links only to what was copied, and nothing links to it.
    pub proof fn lemma_adopted_linked(self, source: Tree, n: NodeId)
        requires
            self.wf(),
            source.wf(),
            source.has(n),
            self.nodes.len() + source.size(n) <= usize::MAX,
        ensures
            self.adopted(source, n).wf(),
            self.adopted(source, n).extends(self),
            self.adopted(source, n).split_at(self.nodes.len() as int),
            self.upright() ==> self.adopted(source, n).upright(),
        decreases source.height(n), source.children(n).len() + 1,
    {
        let id = NodeId(self.nodes.len() as usize);
        let base = self.nodes.len() as int;
        let ids = source.attributes(n);
        let x = self.grown(bare_node(NodeKind::Element, source.name(n), source.value(n)));
        self.lemma_grown_wf(NodeKind::Element, source.name(n), source.value(n));
        self.lemma_grown_split(NodeKind::Element, source.name(n), source.value(n));
        if self.upright() {
            self.lemma_grown_upright(NodeKind::Element, source.name(n), source.value(n));
        }
        x.lemma_copies_linked(base, id, source, ids);
        x.lemma_with_copies(x, id, source, ids);
        let w = x.with_copies(id, source, ids);
        w.lemma_below_linked(base, source, n, 0, id);
        self.lemma_adopted(self, source, n);
    }

    pub proof fn lemma_copies_linked(self, base: int, element: NodeId, source: Tree, s: Seq<NodeId>)
        requires
            self.wf(),
            self.split_at(base),
            0 <= base <= element.0 < self.nodes.len(),
            self.nodes.len() + s.len() <= usize::MAX,
        ensures
            self.with_copies(element, source, s).wf(),
            self.with_copies(element, source, s).split_at(base),
            self.upright() ==> self.with_copies(element, source, s).upright(),
        decreases s.len(),
    {
        if s.len() > 0 {
            let r = s.drop_last();
            self.lemma_copies_linked(base, element, source, r);
            self.lemma_with_copies(self, element, source, r);
            let u = self.with_copies(element, source, r);
            let name = source.name(s.last());
            let value = source.value(s.last());
            u.lemma_attributed_wf(element, name, value);
            u.lemma_attributed_split(base, element, name, value);
            if self.upright() {
                u.lemma_attributed_upright(element, name, value);
            }
        }
    }

    proof fn lemma_below_linked(self, base: int, source: Tree, n: NodeId, i: int, id: NodeId)
        requires
            self.wf(),
            self.split_at(base),
            source.wf(),
            source.has(n),
            0 <= i,
            0 <= base <= id.0 < self.nodes.len(),
            self.nodes.len() + source.size_below(n, i) <= usize::MAX,
        ensures
            self.adopted_below(source, n, i, id).wf(),
            self.adopted_below(source, n, i, id).split_at(base),
            self.upright() ==> self.adopted_below(source, n, i, id).upright(),
        decreases source.height(n), source.children(n).len() - i,
    {
        if i < source.children(n).len() {
            let child = source.children(n)[i];
            source.lemma_ranking();
            source.lemma_children_in(n);
            assert(source.nodes[n.0 as int].children[i] == child);
            let c = NodeId(self.nodes.len() as usize);
            let u = self.adopted(source, child);
            self.lemma_adopted(self, source, child);
            self.lemma_adopted_linked(source, child);
            u.lemma_split_can_hold(self.nodes.len() as int, id, c);
            u.lemma_appended_wf(id, c);
            u.lemma_extended_split(self, base);
            u.lemma_appended_split(base, id, c);
            if self.upright() {
                u.lemma_split_unlinked(self.nodes.len() as int);
                u.lemma_appended_upright(id, c);
            }
            u.appended(id, c).lemma_below_linked(base, source, n, i + 1, id);
        }
    }

    /// Whether a node with all below it is as another is: the same names,
    /// values and attributes in the same places.
    pub open spec fn is_copy(self, a: NodeId, source: Tree, n: NodeId) -> bool
        decreases source.height(n), source.children(n).len() + 1,
        when source.wf() && source.has(n)
    {
        &&& self.name(a) == source.name(n)
        &&& self.value(a) == source.value(n)
        &&& self.attributes(a).len() == source.attributes(n).len()
        &&& forall|k: int|
            0 <= k < source.attributes(n).len() ==> self.name(#[trigger] self.attributes(a)[k])
                == source.name(source.attributes(n)[k]) && self.value(self.attributes(a)[k])
                == source.value(source.attributes(n)[k])
        &&& self.children(a).len() == source.children(n).len()
        &&& self.are_copies(a, source, n, 0)
    }

    /// Whether the children of a node are as those of another are, from the
    /// one at `i` on.
    pub open spec fn are_copies(self, a: NodeId, source: Tree, n: NodeId, i: int) -> bool
        decreases source.height(n), source.children(n).len() - i,
        when source.wf() && source.has(n) && 0 <= i
    {
        i >= source.children(n).len() || (self.is_copy(
            self.children(a)[i],
            source,
            source.children(n)[i],
        ) && self.are_copies(a, source, n, i + 1))
    }

    /// Whether some nodes are as they are in another tree, but for the link
    /// up.
    spec fn agrees(self, that: Tree, from: nat, to: nat) -> bool {
        &&& to <= self.nodes.len()
        &&& forall|j: int|
            from <= j < to ==> (#[trigger] self.nodes[j]) == (NodeModel {
                parent: self.nodes[j].parent,
                ..that.nodes[j]
            })
    }

    proof fn lemma_copied_attributes(self, element: NodeId, source: Tree, s: Seq<NodeId>)
        requires
            element.0 < self.nodes.len(),
            self.nodes.len() + s.len() <= usize::MAX,
            self.attributes(element).len() == 0,
        ensures
            ({
                let t = self.with_copies(element, source, s);
                &&& t.nodes.len() == self.nodes.len() + s.len()
                &&& t.attributes(element).len() == s.len()
                &&& forall|k: int|
                    0 <= k < s.len() ==> (#[trigger] t.attributes(element)[k]).0
                        == self.nodes.len() + k && t.name(t.attributes(element)[k]) == source.name(
                        s[k],
                    ) && t.value(t.attributes(element)[k]) == source.value(s[k])
            }),
        decreases s.len(),
    {
        if s.len() > 0 {
            let r = s.drop_last();
            self.lemma_copied_attributes(element, source, r);
            let u = self.with_copies(element, source, r);
            let t = self.with_copies(element, source, s);
            let id = NodeId(u.nodes.len() as usize);
            assert(t.attributes(element) == u.attributes(element).push(id));
            assert forall|k: int| 0 <= k < s.len() implies (
            #[trigger] t.attributes(element)[k]).0 == self.nodes.len() + k && t.name(
                t.attributes(element)[k],
            ) == source.name(s[k]) && t.value(t.attributes(element)[k]) == source.value(s[k]) by {
                if k < r.len() {
                    assert(t.attributes(element)[k] == u.attributes(element)[k]);
                    assert(r[k] == s[k]);
                }
            }
        }
    }

    proof fn lemma_adopted_copy(self, source: Tree, n: NodeId, z: Tree)
        requires
            source.wf(),
            source.has(n),
            self.nodes.len() + source.size(n) <= usize::MAX,
            z.agrees(
                self.adopted(source, n),
                self.nodes.len(),
                self.nodes.len() + source.size(n),
            ),
        ensures
            z.is_copy(NodeId(self.nodes.len() as usize), source, n),
        decreases source.height(n), source.children(n).len() + 1,
    {
        let id = NodeId(self.nodes.len() as usize);
        let ids = source.attributes(n);
        let x = self.grown(bare_node(NodeKind::Element, source.name(n), source.value(n)));
        let w = x.with_copies(id, source, ids);
        let b = w.adopted_below(source, n, 0, id);
        x.lemma_with_copies(x, id, source, ids);
        x.lemma_copied_attributes(id, source, ids);
        w.lemma_adopted_below(w, source, n, 0, id);
        assert(b == self.adopted(source, n));
        assert(z.nodes[id.0 as int].name == b.nodes[id.0 as int].name);
        assert forall|k: int| 0 <= k < ids.len() implies z.name(#[trigger] z.attributes(id)[k])
            == source.name(ids[k]) && z.value(z.attributes(id)[k]) == source.value(ids[k]) by {
            let a = w.attributes(id)[k];
            assert(z.attributes(id)[k] == a);
            assert(b.nodes[a.0 as int] == w.nodes[a.0 as int]);
            assert(z.nodes[a.0 as int].name == b.nodes[a.0 as int].name);
        }
        w.lemma_copied_below(source, n, 0, id, z);
        assert forall|j: int| 0 <= j < source.children(n).len() implies z.is_copy(
            #[trigger] z.children(id)[j],
            source,
            source.children(n)[j],
        ) by {
            assert(b.children(id)[w.children(id).len() + j] == z.children(id)[j]);
        }
        z.lemma_copies(id, source, n, 0);
    }

    proof fn lemma_copies(self, a: NodeId, source: Tree, n: NodeId, i: int)
        requires
            source.wf(),
            source.has(n),
            0 <= i,
            self.children(a).len() == source.children(n).len(),
            forall|j: int|
                0 <= j < source.children(n).len() ==> self.is_copy(
                    #[trigger] self.children(a)[j],
                    source,
                    source.children(n)[j],
                ),
        ensures
            self.are_copies(a, source, n, i),
        decreases source.children(n).len() - i,
    {
        if i < source.children(n).len() {
            assert(self.is_copy(self.children(a)[i], source, source.children(n)[i]));
            self.lemma_copies(a, source, n, i + 1);
        }
    }

    proof fn lemma_copied_below(self, source: Tree, n: NodeId, i: int, id: NodeId, z: Tree)
        requires
            source.wf(),
            source.has(n),
            0 <= i <= source.children(n).len(),
            id.0 < self.nodes.len(),
            self.nodes.len() + source.size_below(n, i) <= usize::MAX,
            z.agrees(
                self.adopted_below(source, n, i, id),
                self.nodes.len(),
                self.nodes.len() + source.size_below(n, i),
            ),
        ensures
            ({
                let b = self.adopted_below(source, n, i, id);
                let l = self.children(id).len() as int;
                &&& b.children(id).len() == l + source.children(n).len() - i
                &&& forall|j: int|
                    l <= j < b.children(id).len() ==> z.is_copy(
                        #[trigger] b.children(id)[j],
                        source,
                        source.children(n)[i + j - l],
                    )
            }),
        decreases source.height(n), source.children(n).len() - i,
    {
        if i < source.children(n).len() {
            let child = source.children(n)[i];
            source.lemma_ranking();
            source.lemma_children_in(n);
            assert(source.nodes[n.0 as int].children[i] == child);
            let c = NodeId(self.nodes.len() as usize);
            let u = self.adopted(source, child);
            let v = u.appended(id, c);
            let b = self.adopted_below(source, n, i, id);
            let l = self.children(id).len() as int;
            self.lemma_adopted(self, source, child);
            v.lemma_adopted_below(v, source, n, i + 1, id);
            assert(u.nodes[id.0 as int] == self.nodes[id.0 as int]);
            assert(v.children(id) == self.children(id).push(c));
            assert(z.agrees(u, self.nodes.len(), u.nodes.len())) by {
                assert forall|j: int| self.nodes.len() <= j < u.nodes.len() implies (
                #[trigger] z.nodes[j]) == (NodeModel { parent: z.nodes[j].parent, ..u.nodes[j] }) by {
                    assert(b.nodes[j] == v.nodes[j]);
                }
            }
            self.lemma_adopted_copy(source, child, z);
            assert(z.agrees(b, v.nodes.len(), v.nodes.len() + source.size_below(n, i + 1)));
            v.lemma_copied_below(source, n, i + 1, id, z);
            assert(b.children(id)[l] == c) by {
                assert(b.children(id).take(l + 1)[l] == b.children(id)[l]);
            }
            assert forall|j: int| l <= j < b.children(id).len() implies z.is_copy(
                #[trigger] b.children(id)[j],
                source,
                source.children(n)[i + j - l],
            ) by {
                if j > l {
                    assert(z.is_copy(b.children(id)[j], source, source.children(n)[i + 1 + j - (l
                        + 1)]));
                }
            }
        }
    }

    /// A subtree copied out is the subtree it was copied from.
    pub proof fn law_subtree_is_a_copy(self, n: NodeId)
        requires
            self.wf(),
            self.has(n),
            self.size(n) <= usize::MAX,
        ensures
            self.subtree(n).is_copy(NodeId(0), self, n),
    {
        let e = Tree::empty();
        e.lemma_adopted(e, self, n);
        e.lemma_adopted_copy(self, n, self.subtree(n));
    }
}

} // verus!
