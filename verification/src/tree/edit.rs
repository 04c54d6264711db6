//! Changing the shape of an instance: copying a subtree in, taking a node
//! out, putting one beside another.

use crate::tree::{bare_node, copied, Instance, NodeId, NodeKind, NodeModel, Ranking, Tree};
use vstd::prelude::*;

verus! {

/// A list without any occurrence of `n`.
pub open spec fn without(s: Seq<NodeId>, n: NodeId) -> Seq<NodeId>
    decreases s.len(),
{
    if s.len() == 0 {
        s
    } else if s.last() == n {
        without(s.drop_last(), n)
    } else {
        without(s.drop_last(), n).push(s.last())
    }
}

/// The place after the first `n` of a list, or its end.
pub open spec fn place_after(s: Seq<NodeId>, n: NodeId) -> int
    decreases s.len(),
{
    if s.len() == 0 {
        0
    } else if s[0] == n {
        1
    } else {
        1 + place_after(s.skip(1), n)
    }
}

impl Tree {
    /// The tree with copies of some attributes on `element`.
    pub open spec fn with_copies(self, element: NodeId, source: Tree, s: Seq<NodeId>) -> Tree
        decreases s.len(),
    {
        if s.len() == 0 {
            self
        } else {
            self.with_copies(element, source, s.drop_last()).attributed(
                element,
                source.name(s.last()),
                source.value(s.last()),
            )
        }
    }

    /// The tree with a copy of a node of `source` and of all that is below
    /// it, which nothing links to. The copy is the first node added.
    pub open spec fn adopted(self, source: Tree, n: NodeId) -> Tree
        decreases source.height(n), source.children(n).len() + 1,
        when source.wf() && source.has(n)
    {
        let id = NodeId(self.nodes.len() as usize);
        self.grown(
            bare_node(NodeKind::Element, source.name(n), source.value(n)),
        ).with_copies(id, source, source.attributes(n)).adopted_below(source, n, 0, id)
    }

    /// The tree with copies of a node's children, from the child `i` on, as
    /// the last children of `id`.
    pub open spec fn adopted_below(self, source: Tree, n: NodeId, i: int, id: NodeId) -> Tree
        decreases source.height(n), source.children(n).len() - i,
        when source.wf() && source.has(n) && 0 <= i
    {
        if i >= source.children(n).len() {
            self
        } else {
            self.adopted(source, source.children(n)[i]).appended(
                id,
                NodeId(self.nodes.len() as usize),
            ).adopted_below(source, n, i + 1, id)
        }
    }

    /// The tree with a node taken out of its parent.
    pub open spec fn detached(self, n: NodeId) -> Tree {
        match self.parent(n) {
            Some(p) => {
                let t = self.with_node(
                    p,
                    NodeModel { children: without(self.children(p), n), ..self.node(p) },
                );
                t.with_node(n, NodeModel { parent: None, ..t.node(n) })
            },
            None => self,
        }
    }

    /// The tree with an attribute taken off its element.
    pub open spec fn stripped(self, a: NodeId) -> Tree {
        match self.parent(a) {
            Some(p) => {
                let t = self.with_node(
                    p,
                    NodeModel { attributes: without(self.attributes(p), a), ..self.node(p) },
                );
                t.with_node(a, NodeModel { parent: None, ..t.node(a) })
            },
            None => self,
        }
    }

    /// The tree with `n` put after `sibling` among the children of the
    /// parent that `sibling` has.
    pub open spec fn inserted_after(self, sibling: NodeId, n: NodeId) -> Tree {
        match self.parent(sibling) {
            Some(p) => {
                let t = self.with_node(n, NodeModel { parent: Some(p), ..self.node(n) });
                let c = t.children(p);
                t.with_node(
                    p,
                    NodeModel { children: c.insert(place_after(c, sibling), n), ..t.node(p) },
                )
            },
            None => self,
        }
    }

    /// Whether a tree holds the nodes of another, unchanged, before its own.
    pub open spec fn extends(self, other: Tree) -> bool {
        &&& other.nodes.len() <= self.nodes.len()
        &&& forall|i: int|
            0 <= i < other.nodes.len() ==> #[trigger] self.nodes[i] == other.nodes[i]
        &&& self.root == other.root
        &&& self.order == other.order
    }

    /// A tree that can be walked has no links past its end.
    pub proof fn lemma_split_at_end(self)
        requires
            self.linked(),
        ensures
            self.split_at(self.nodes.len() as int),
    {
        assert forall|p: int, i: int|
            0 <= p < self.nodes.len() && 0 <= i < self.nodes[p].children.len() implies (
        #[trigger] self.nodes[p].children[i]).0 < self.nodes.len() by {
            assert(self.has(self.nodes[p].children[i]));
        }
        assert forall|p: int, i: int|
            0 <= p < self.nodes.len() && 0 <= i < self.nodes[p].attributes.len() implies (
        #[trigger] self.nodes[p].attributes[i]).0 < self.nodes.len() by {
            assert(self.has(self.nodes[p].attributes[i]));
        }
    }

    proof fn lemma_without(s: Seq<NodeId>, n: NodeId)
        ensures
            forall|m: NodeId| #[trigger] s.contains(m) && m != n ==> without(s, n).contains(m),
            forall|i: int|
                0 <= i < without(s, n).len() ==> s.contains(#[trigger] without(s, n)[i]),
        decreases s.len(),
    {
        if s.len() > 0 {
            let r = s.drop_last();
            Self::lemma_without(r, n);
            let w = without(s, n);
            assert forall|m: NodeId| #[trigger] s.contains(m) && m != n implies w.contains(m) by {
                let i = choose|i: int| 0 <= i < s.len() && s[i] == m;
                if i < r.len() {
                    assert(r[i] == m);
                    assert(r.contains(m));
                    let k = choose|k: int| 0 <= k < without(r, n).len() && without(r, n)[k] == m;
                    assert(w[k] == m);
                } else {
                    assert(w[w.len() - 1] == m);
                }
            }
            assert forall|i: int| 0 <= i < w.len() implies s.contains(#[trigger] w[i]) by {
                if i < without(r, n).len() {
                    assert(r.contains(without(r, n)[i]));
                    let k = choose|k: int| 0 <= k < r.len() && r[k] == w[i];
                    assert(s[k] == w[i]);
                } else {
                    assert(s[s.len() - 1] == w[i]);
                }
            }
        }
    }

    pub proof fn lemma_detached_wf(self, n: NodeId)
        requires
            self.wf(),
            self.has(n),
        ensures
            self.detached(n).wf(),
    {
        if let Some(q) = self.parent(n) {
            let t = self.detached(n);
            self.lemma_parent(n);
            self.lemma_ranking();
            let rank = self.ranking();
            Self::lemma_without(self.children(q), n);
            assert forall|p: int, i: int|
                0 <= p < t.nodes.len() && 0 <= i < t.nodes[p].children.len() implies t.has(
                #[trigger] t.nodes[p].children[i],
            ) && rank.of[t.nodes[p].children[i].0 as int] < rank.of[p] by {
                let c = t.nodes[p].children[i];
                if p == q.0 {
                    assert(self.children(q).contains(without(self.children(q), n)[i]));
                    let k = choose|k: int|
                        0 <= k < self.children(q).len() && self.children(q)[k] == c;
                    assert(self.nodes[p].children[k] == c);
                } else {
                    assert(self.nodes[p].children[i] == c);
                }
            }
            assert forall|p: int, i: int|
                0 <= p < t.nodes.len() && 0 <= i < t.nodes[p].attributes.len() implies t.has(
                #[trigger] t.nodes[p].attributes[i],
            ) && rank.of[t.nodes[p].attributes[i].0 as int] < rank.of[p] by {
                assert(t.nodes[p].attributes[i] == self.nodes[p].attributes[i]);
            }
            assert forall|m: int| 0 <= m < t.nodes.len() implies ((
            #[trigger] t.nodes[m]).parent matches Some(p) ==> t.has(p) && (t.children(p).contains(
                NodeId(m as usize),
            ) || t.attributes(p).contains(NodeId(m as usize)))) by {
                if let Some(p) = t.nodes[m].parent {
                    assert(self.nodes[m].parent == Some(p));
                    assert(m != n.0);
                    assert(t.attributes(p) == self.attributes(p));
                    if self.children(p).contains(NodeId(m as usize)) {
                        if p != q {
                            assert(t.children(p) == self.children(p));
                        }
                    }
                }
            }
            assert(t.ranked(rank));
        }
    }

    pub proof fn lemma_stripped_wf(self, a: NodeId)
        requires
            self.wf(),
            self.has(a),
        ensures
            self.stripped(a).wf(),
    {
        if let Some(q) = self.parent(a) {
            let t = self.stripped(a);
            self.lemma_parent(a);
            self.lemma_ranking();
            let rank = self.ranking();
            Self::lemma_without(self.attributes(q), a);
            assert forall|p: int, i: int|
                0 <= p < t.nodes.len() && 0 <= i < t.nodes[p].children.len() implies t.has(
                #[trigger] t.nodes[p].children[i],
            ) && rank.of[t.nodes[p].children[i].0 as int] < rank.of[p] by {
                assert(t.nodes[p].children[i] == self.nodes[p].children[i]);
            }
            assert forall|p: int, i: int|
                0 <= p < t.nodes.len() && 0 <= i < t.nodes[p].attributes.len() implies t.has(
                #[trigger] t.nodes[p].attributes[i],
            ) && rank.of[t.nodes[p].attributes[i].0 as int] < rank.of[p] by {
                let c = t.nodes[p].attributes[i];
                if p == q.0 {
                    assert(self.attributes(q).contains(without(self.attributes(q), a)[i]));
                    let k = choose|k: int|
                        0 <= k < self.attributes(q).len() && self.attributes(q)[k] == c;
                    assert(self.nodes[p].attributes[k] == c);
                } else {
                    assert(self.nodes[p].attributes[i] == c);
                }
            }
            assert forall|m: int| 0 <= m < t.nodes.len() implies ((
            #[trigger] t.nodes[m]).parent matches Some(p) ==> t.has(p) && (t.children(p).contains(
                NodeId(m as usize),
            ) || t.attributes(p).contains(NodeId(m as usize)))) by {
                if let Some(p) = t.nodes[m].parent {
                    assert(self.nodes[m].parent == Some(p));
                    assert(m != a.0);
                    assert(t.children(p) == self.children(p));
                    if self.attributes(p).contains(NodeId(m as usize)) {
                        if p != q {
                            assert(t.attributes(p) == self.attributes(p));
                        }
                    }
                }
            }
            assert(t.ranked(rank));
        }
    }

    pub proof fn lemma_place_after(s: Seq<NodeId>, n: NodeId)
        ensures
            0 <= place_after(s, n) <= s.len(),
        decreases s.len(),
    {
        if s.len() > 0 && s[0] != n {
            Self::lemma_place_after(s.skip(1), n);
        }
    }

    pub proof fn lemma_inserted_wf(self, sibling: NodeId, n: NodeId)
        requires
            self.wf(),
            self.has(sibling),
            self.has(n),
            self.parent(sibling) matches Some(p) ==> self.can_hold(p, n),
        ensures
            self.inserted_after(sibling, n).wf(),
    {
        if let Some(q) = self.parent(sibling) {
            let t = self.inserted_after(sibling, n);
            self.lemma_parent(sibling);
            let rank = choose|rank: Ranking|
                #[trigger] self.ranked(rank) && rank.of[n.0 as int] < rank.of[q.0 as int];
            let c = self.children(q);
            let k = place_after(c, sibling);
            Self::lemma_place_after(c, sibling);
            assert(t.children(q) == c.insert(k, n));
            assert forall|p: int, i: int|
                0 <= p < t.nodes.len() && 0 <= i < t.nodes[p].children.len() implies t.has(
                #[trigger] t.nodes[p].children[i],
            ) && rank.of[t.nodes[p].children[i].0 as int] < rank.of[p] by {
                if p == q.0 {
                    if i < k {
                        assert(t.nodes[p].children[i] == self.nodes[p].children[i]);
                    } else if i > k {
                        assert(t.nodes[p].children[i] == self.nodes[p].children[i - 1]);
                    } else {
                        assert(t.nodes[p].children[i] == n);
                    }
                } else {
                    assert(t.nodes[p].children[i] == self.nodes[p].children[i]);
                }
            }
            assert forall|p: int, i: int|
                0 <= p < t.nodes.len() && 0 <= i < t.nodes[p].attributes.len() implies t.has(
                #[trigger] t.nodes[p].attributes[i],
            ) && rank.of[t.nodes[p].attributes[i].0 as int] < rank.of[p] by {
                assert(t.nodes[p].attributes[i] == self.nodes[p].attributes[i]);
            }
            assert forall|m: int| 0 <= m < t.nodes.len() implies ((
            #[trigger] t.nodes[m]).parent matches Some(p) ==> t.has(p) && (t.children(p).contains(
                NodeId(m as usize),
            ) || t.attributes(p).contains(NodeId(m as usize)))) by {
                if let Some(p) = t.nodes[m].parent {
                    if m == n.0 {
                        assert(t.children(p)[k] == n);
                    } else {
                        assert(self.nodes[m].parent == Some(p));
                        assert(t.attributes(p) == self.attributes(p));
                        if self.children(p).contains(NodeId(m as usize)) {
                            let i = choose|i: int|
                                0 <= i < self.children(p).len() && self.children(p)[i] == NodeId(
                                    m as usize,
                                );
                            if p == q {
                                if i < k {
                                    assert(t.children(p)[i] == NodeId(m as usize));
                                } else {
                                    assert(t.children(p)[i + 1] == NodeId(m as usize));
                                }
                            } else {
                                assert(t.children(p)[i] == NodeId(m as usize));
                            }
                        }
                    }
                }
            }
            assert(t.ranked(rank));
        }
    }

    /// A node that links to nothing leaves the links as they were.
    pub proof fn lemma_grown_split(self, kind: NodeKind, name: Seq<char>, value: Seq<char>)
        requires
            self.linked(),
        ensures
            self.grown(bare_node(kind, name, value)).split_at(self.nodes.len() as int),
            self.grown(bare_node(kind, name, value)).extends(self),
    {
        let t = self.grown(bare_node(kind, name, value));
        let base = self.nodes.len() as int;
        self.lemma_split_at_end();
        assert forall|p: int, i: int|
            0 <= p < t.nodes.len() && 0 <= i < t.nodes[p].children.len() implies if p < base {
            (#[trigger] t.nodes[p].children[i]).0 < base
        } else {
            t.nodes[p].children[i].0 > p
        } by {
            assert(t.nodes[p].children[i] == self.nodes[p].children[i]);
        }
        assert forall|p: int, i: int|
            0 <= p < t.nodes.len() && 0 <= i < t.nodes[p].attributes.len() implies if p < base {
            (#[trigger] t.nodes[p].attributes[i]).0 < base
        } else {
            t.nodes[p].attributes[i].0 > p
        } by {
            assert(t.nodes[p].attributes[i] == self.nodes[p].attributes[i]);
        }
    }

    /// Adding an attribute links only to the node it adds.
    pub proof fn lemma_attributed_split(
        self,
        base: int,
        element: NodeId,
        name: Seq<char>,
        value: Seq<char>,
    )
        requires
            self.split_at(base),
            0 <= base <= element.0 < self.nodes.len() < usize::MAX,
        ensures
            self.attributed(element, name, value).split_at(base),
    {
        let t = self.attributed(element, name, value);
        assert forall|p: int, i: int|
            0 <= p < t.nodes.len() && 0 <= i < t.nodes[p].children.len() implies if p < base {
            (#[trigger] t.nodes[p].children[i]).0 < base
        } else {
            t.nodes[p].children[i].0 > p
        } by {
            assert(t.nodes[p].children[i] == self.nodes[p].children[i]);
        }
        assert forall|p: int, i: int|
            0 <= p < t.nodes.len() && 0 <= i < t.nodes[p].attributes.len() implies if p < base {
            (#[trigger] t.nodes[p].attributes[i]).0 < base
        } else {
            t.nodes[p].attributes[i].0 > p
        } by {
            if i < self.nodes[p].attributes.len() {
                assert(t.nodes[p].attributes[i] == self.nodes[p].attributes[i]);
            }
        }
    }

    /// A link down to a later node keeps links leading down.
    pub proof fn lemma_appended_split(self, base: int, parent: NodeId, child: NodeId)
        requires
            self.split_at(base),
            base <= parent.0 < child.0 < self.nodes.len(),
        ensures
            self.appended(parent, child).split_at(base),
    {
        let t = self.appended(parent, child);
        assert forall|p: int, i: int|
            0 <= p < t.nodes.len() && 0 <= i < t.nodes[p].children.len() implies if p < base {
            (#[trigger] t.nodes[p].children[i]).0 < base
        } else {
            t.nodes[p].children[i].0 > p
        } by {
            if i < self.nodes[p].children.len() {
                assert(t.nodes[p].children[i] == self.nodes[p].children[i]);
            }
        }
        assert forall|p: int, i: int|
            0 <= p < t.nodes.len() && 0 <= i < t.nodes[p].attributes.len() implies if p < base {
            (#[trigger] t.nodes[p].attributes[i]).0 < base
        } else {
            t.nodes[p].attributes[i].0 > p
        } by {
            assert(t.nodes[p].attributes[i] == self.nodes[p].attributes[i]);
        }
    }

    /// A tree that extends one, and adds links only among what it adds, is
    /// split where that one is.
    pub proof fn lemma_extended_split(self, other: Tree, base: int)
        requires
            self.extends(other),
            self.split_at(other.nodes.len() as int),
            other.split_at(base),
            base <= other.nodes.len(),
        ensures
            self.split_at(base),
    {
        assert forall|p: int, i: int|
            0 <= p < self.nodes.len() && 0 <= i < self.nodes[p].children.len() implies if p < base {
            (#[trigger] self.nodes[p].children[i]).0 < base
        } else {
            self.nodes[p].children[i].0 > p
        } by {
            if p < other.nodes.len() {
                assert(self.nodes[p] == other.nodes[p]);
                assert(other.nodes[p].children[i] == self.nodes[p].children[i]);
            }
        }
        assert forall|p: int, i: int|
            0 <= p < self.nodes.len() && 0 <= i < self.nodes[p].attributes.len() implies if p
            < base {
            (#[trigger] self.nodes[p].attributes[i]).0 < base
        } else {
            self.nodes[p].attributes[i].0 > p
        } by {
            if p < other.nodes.len() {
                assert(self.nodes[p] == other.nodes[p]);
                assert(other.nodes[p].attributes[i] == self.nodes[p].attributes[i]);
            }
        }
    }
}

impl Instance {
    /// Copy a subtree of `source` into this instance, returning its new id.
    pub fn adopt(&mut self, source: &Instance, node: NodeId) -> (id: NodeId)
        requires
            old(self)@.wf(),
            source@.wf(),
            source@.has(node),
        ensures
            id.0 == old(self)@.nodes.len(),
            id == NodeId(old(self)@.nodes.len() as usize),
            final(self)@ == old(self)@.adopted(source@, node),
            final(self)@.wf(),
            final(self)@.has(id),
            final(self)@.extends(old(self)@),
            final(self)@.split_at(old(self)@.nodes.len() as int),
            old(self)@.upright() ==> final(self)@.upright(),
        decreases source@.height(node),
    {
        let ghost start = self@;
        let ghost s = source@;
        let ghost base = self@.nodes.len() as int;
        let created = self.create_element(
            source.node(node).name.as_str(),
            source.node(node).value.as_str(),
        );
        proof {
            start.lemma_grown_split(NodeKind::Element, s.name(node), s.value(node));
            if start.upright() {
                start.lemma_grown_upright(NodeKind::Element, s.name(node), s.value(node));
            }
        }
        let ghost grown = self@;
        let attributes = source.attributes(node);
        let n = attributes.len();
        assert(attributes@.take(0) == Seq::<NodeId>::empty());
        for i in 0..n
            invariant
                s == source@,
                s.all_in(attributes@),
                n == attributes@.len(),
                created.0 == base,
                base == start.nodes.len(),
                self@.wf(),
                self@.has(created),
                self@.split_at(base),
                self@.extends(start),
                start.upright() ==> self@.upright(),
                self@ == grown.with_copies(created, s, attributes@.take(i as int)),
        {
            assert(attributes@.take(i + 1).drop_last() == attributes@.take(i as int));
            assert(s.has(attributes@[i as int]));
            let ghost before = self@;
            let a = source.node(attributes[i]);
            self.set_attribute(created, a.name.as_str(), a.value.as_str());
            proof {
                before.lemma_attributed_split(base, created, a.name@, a.value@);
                if before.upright() {
                    before.lemma_attributed_upright(created, a.name@, a.value@);
                }
            }
        }
        assert(attributes@.take(n as int) == attributes@);
        let ghost marked = self@;
        let children = source.children(node);
        let m = children.len();
        for i in 0..m
            invariant
                s == source@,
                s.wf(),
                s.has(node),
                children@ == s.children(node),
                s.all_in(children@),
                m == children@.len(),
                created.0 == base,
                base == start.nodes.len(),
                self@.wf(),
                self@.has(created),
                self@.split_at(base),
                self@.extends(start),
                start.upright() ==> self@.upright(),
                self@.adopted_below(s, node, i as int, created) == marked.adopted_below(
                    s,
                    node,
                    0,
                    created,
                ),
        {
            assert(s.has(children@[i as int]));
            proof {
                s.lemma_ranking();
                assert(s.nodes[node.0 as int].children[i as int] == children@[i as int]);
            }
            let ghost before = self@;
            let copy = self.adopt(source, children[i]);
            let ghost with_copy = self@;
            proof {
                with_copy.lemma_split_can_hold(before.nodes.len() as int, created, copy);
                with_copy.lemma_extended_split(before, base);
                with_copy.lemma_appended_split(base, created, copy);
                if with_copy.upright() {
                    with_copy.lemma_split_unlinked(before.nodes.len() as int);
                    with_copy.lemma_appended_upright(created, copy);
                }
            }
            self.append_child(created, copy);
        }
        created
    }

    /// Take a node out of its parent. It stays in the arena, where nothing
    /// links to it.
    pub fn detach(&mut self, node: NodeId)
        requires
            old(self)@.wf(),
            old(self)@.has(node),
        ensures
            final(self)@ == old(self)@.detached(node),
            final(self)@.wf(),
            old(self)@.upright() ==> final(self)@.upright(),
    {
        let ghost before = self@;
        proof {
            before.lemma_parent(node);
            before.lemma_detached_wf(node);
            if before.upright() {
                before.lemma_detached_upright(node);
            }
        }
        if let Some(parent) = self.parent(node) {
            let rest = kept_without(&self.node(parent).children, node);
            self.node_mut(parent).children = rest;
            self.node_mut(node).parent = None;
            assert(self@ == before.detached(node));
        }
    }

    /// Take an attribute off its element. It stays in the arena, where
    /// nothing links to it.
    pub(crate) fn strip(&mut self, attribute: NodeId)
        requires
            old(self)@.wf(),
            old(self)@.has(attribute),
        ensures
            final(self)@ == old(self)@.stripped(attribute),
            final(self)@.wf(),
    {
        let ghost before = self@;
        proof {
            before.lemma_parent(attribute);
            before.lemma_stripped_wf(attribute);
        }
        if let Some(element) = self.parent(attribute) {
            let rest = kept_without(&self.node(element).attributes, attribute);
            self.node_mut(element).attributes = rest;
            self.node_mut(attribute).parent = None;
            assert(self@ == before.stripped(attribute));
        }
    }

    /// Put a node after another, under the parent that one has.
    pub fn insert_after(&mut self, sibling: NodeId, node: NodeId)
        requires
            old(self)@.wf(),
            old(self)@.has(sibling),
            old(self)@.has(node),
        ensures
            final(self)@ == old(self)@.inserted_after(sibling, node),
            (old(self)@.parent(sibling) matches Some(p) ==> old(self)@.can_hold(p, node))
                ==> final(self)@.wf(),
    {
        let ghost before = self@;
        proof {
            before.lemma_parent(sibling);
            if before.parent(sibling) matches Some(p) ==> before.can_hold(p, node) {
                before.lemma_inserted_wf(sibling, node);
            }
        }
        if let Some(parent) = self.parent(sibling) {
            self.node_mut(node).parent = Some(parent);
            let ghost middle = self@;
            let mut children = copied(&self.node(parent).children);
            let at = place_of(&children, sibling);
            children.insert(at, node);
            self.node_mut(parent).children = children;
            assert(self@ == before.inserted_after(sibling, node));
        }
    }
}

pub(crate) fn kept_without(ids: &Vec<NodeId>, node: NodeId) -> (r: Vec<NodeId>)
    ensures
        r@ == without(ids@, node),
{
    let mut out: Vec<NodeId> = Vec::new();
    let n = ids.len();
    assert(ids@.take(0) == Seq::<NodeId>::empty());
    for i in 0..n
        invariant
            n == ids@.len(),
            out@ == without(ids@.take(i as int), node),
    {
        assert(ids@.take(i + 1).drop_last() == ids@.take(i as int));
        if ids[i] != node {
            out.push(ids[i]);
        }
    }
    assert(ids@.take(n as int) == ids@);
    out
}

pub(crate) fn place_of(ids: &Vec<NodeId>, node: NodeId) -> (r: usize)
    ensures
        r == place_after(ids@, node),
        r <= ids@.len(),
{
    let n = ids.len();
    assert(ids@.skip(0) == ids@);
    for i in 0..n
        invariant
            n == ids@.len(),
            place_after(ids@, node) == i + place_after(ids@.skip(i as int), node),
    {
        assert(ids@.skip(i as int).skip(1) == ids@.skip(i + 1));
        if ids[i] == node {
            return i + 1;
        }
    }
    n
}

} // verus!
