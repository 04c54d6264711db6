//! The instance tree XPath runs over.
//!
//! An arena: evaluation needs node identity (two paths can reach the same
//! node, and document order decides what a node-set means), recalculation
//! needs to write values back, and a parent link is required for the `..`
//! axis. Indices give all three without reference cycles.

use crate::text::{join, joined, same, texts};
use vstd::prelude::*;

pub mod address;
pub mod copying;
pub mod edit;
pub mod descent;
pub mod layout;
pub mod likeness;
pub mod listing;
pub mod markup;
pub mod mirroring;
pub mod naming;
pub mod ordering;
pub mod places;
pub mod standing;
pub mod together;
pub mod upright;
pub mod xml;

verus! {

/// A node's place in the arena.
#[derive(Debug, Clone, Copy, PartialEq, Eq, PartialOrd, Ord, Hash, Structural)]
pub struct NodeId(pub usize);

#[derive(Debug, Clone, Copy, PartialEq, Eq, Structural)]
pub enum NodeKind {
    Element,
    /// Attributes are nodes in XPath, reachable through their own axis.
    Attribute,
}

#[derive(Debug)]
pub struct Node {
    pub kind: NodeKind,
    /// Local name, namespace prefix stripped: instances are single-namespace
    /// in practice and ODK expressions are written without prefixes.
    pub name: String,
    /// Text content of an element, or the value of an attribute.
    pub value: String,
    pub parent: Option<NodeId>,
    pub children: Vec<NodeId>,
    pub attributes: Vec<NodeId>,
}

#[derive(Debug)]
pub struct Instance {
    nodes: Vec<Node>,
    root: Option<NodeId>,
    /// Document order by node. XPath is defined in terms of it, and
    /// recomputing it per comparison is how evaluation becomes quadratic on
    /// a large repeat.
    order: Vec<usize>,
}

// ---------------------------------------------------------------------------
// The model
// ---------------------------------------------------------------------------

/// What a node holds.
#[verifier::ext_equal]
pub struct NodeModel {
    pub kind: NodeKind,
    pub name: Seq<char>,
    pub value: Seq<char>,
    pub parent: Option<NodeId>,
    pub children: Seq<NodeId>,
    pub attributes: Seq<NodeId>,
}

/// What an instance holds.
#[verifier::ext_equal]
pub struct Tree {
    pub nodes: Seq<NodeModel>,
    pub root: Option<NodeId>,
    pub order: Seq<usize>,
}

/// A height for every node, above the heights of all nodes it holds.
pub struct Ranking {
    pub of: Seq<nat>,
    pub bound: nat,
}

impl View for Node {
    type V = NodeModel;

    open spec fn view(&self) -> NodeModel {
        NodeModel {
            kind: self.kind,
            name: self.name@,
            value: self.value@,
            parent: self.parent,
            children: self.children@,
            attributes: self.attributes@,
        }
    }
}

impl View for Instance {
    type V = Tree;

    closed spec fn view(&self) -> Tree {
        Tree {
            nodes: Seq::new(self.nodes@.len(), |i: int| self.nodes@[i]@),
            root: self.root,
            order: self.order@,
        }
    }
}

/// A node as it is made: without links.
pub open spec fn bare_node(kind: NodeKind, name: Seq<char>, value: Seq<char>) -> NodeModel {
    NodeModel {
        kind,
        name,
        value,
        parent: None,
        children: Seq::empty(),
        attributes: Seq::empty(),
    }
}

/// Where `n` last stands in a list.
pub open spec fn last_index(s: Seq<NodeId>, n: NodeId) -> Option<int>
    decreases s.len(),
{
    if s.len() == 0 {
        None
    } else if s.last() == n {
        Some(s.len() - 1)
    } else {
        last_index(s.drop_last(), n)
    }
}

/// A count, held at the most a machine word holds.
pub open spec fn held(n: int) -> usize {
    if n > usize::MAX {
        usize::MAX
    } else {
        n as usize
    }
}

/// The place of a node in a listing, and for one that is not in it a place
/// after all others.
pub open spec fn place_in(s: Seq<NodeId>, n: NodeId) -> usize {
    match last_index(s, n) {
        Some(i) => held(i),
        None => usize::MAX,
    }
}

impl Tree {
    pub open spec fn empty() -> Tree {
        Tree { nodes: Seq::empty(), root: None, order: Seq::empty() }
    }

    pub open spec fn has(self, n: NodeId) -> bool {
        n.0 < self.nodes.len()
    }

    pub open spec fn node(self, n: NodeId) -> NodeModel {
        self.nodes[n.0 as int]
    }

    pub open spec fn name(self, n: NodeId) -> Seq<char> {
        self.node(n).name
    }

    pub open spec fn value(self, n: NodeId) -> Seq<char> {
        self.node(n).value
    }

    pub open spec fn parent(self, n: NodeId) -> Option<NodeId> {
        self.node(n).parent
    }

    pub open spec fn children(self, n: NodeId) -> Seq<NodeId> {
        self.node(n).children
    }

    pub open spec fn attributes(self, n: NodeId) -> Seq<NodeId> {
        self.node(n).attributes
    }

    /// Every link leads to a node of the arena, and up only where a link
    /// leads down.
    pub open spec fn linked(self) -> bool {
        &&& self.root matches Some(r) ==> self.has(r)
        &&& forall|p: int, i: int|
            0 <= p < self.nodes.len() && 0 <= i < self.nodes[p].children.len() ==> self.has(
                #[trigger] self.nodes[p].children[i],
            )
        &&& forall|p: int, i: int|
            0 <= p < self.nodes.len() && 0 <= i < self.nodes[p].attributes.len() ==> self.has(
                #[trigger] self.nodes[p].attributes[i],
            )
        &&& forall|n: int|
            0 <= n < self.nodes.len() ==> ((#[trigger] self.nodes[n]).parent matches Some(p)
                ==> self.has(p) && (self.children(p).contains(NodeId(n as usize))
                || self.attributes(p).contains(NodeId(n as usize))))
    }

    pub open spec fn ranked(self, rank: Ranking) -> bool {
        &&& rank.of.len() == self.nodes.len()
        &&& forall|p: int| 0 <= p < self.nodes.len() ==> #[trigger] rank.of[p] <= rank.bound
        &&& forall|p: int, i: int|
            0 <= p < self.nodes.len() && 0 <= i < self.nodes[p].children.len()
                ==> rank.of[(#[trigger] self.nodes[p].children[i]).0 as int] < rank.of[p]
        &&& forall|p: int, i: int|
            0 <= p < self.nodes.len() && 0 <= i < self.nodes[p].attributes.len()
                ==> rank.of[(#[trigger] self.nodes[p].attributes[i]).0 as int] < rank.of[p]
    }

    /// A tree that can be walked: its links lead to its nodes, and no way
    /// down ever comes back. The arena fits what a machine word counts, and
    /// document order speaks of its nodes alone.
    pub open spec fn wf(self) -> bool {
        &&& self.nodes.len() <= usize::MAX
        &&& self.order.len() <= self.nodes.len()
        &&& self.linked()
        &&& exists|rank: Ranking| self.ranked(rank)
    }

    pub open spec fn ranking(self) -> Ranking {
        choose|rank: Ranking| self.ranked(rank)
    }

    pub open spec fn height(self, n: NodeId) -> nat {
        self.ranking().of[n.0 as int]
    }

    /// A node and what is below it, each node before its children. With
    /// `attributes`, those of a node stand between it and its children.
    pub open spec fn visit(self, n: NodeId, attributes: bool) -> Seq<NodeId>
        decreases self.height(n), self.children(n).len() + 1,
        when self.wf() && self.has(n)
    {
        seq![n] + (if attributes {
            self.attributes(n)
        } else {
            Seq::empty()
        }) + self.below(n, 0, attributes)
    }

    /// What is below a node, from its child `i` on.
    pub open spec fn below(self, n: NodeId, i: int, attributes: bool) -> Seq<NodeId>
        decreases self.height(n), self.children(n).len() - i,
        when self.wf() && self.has(n) && 0 <= i
    {
        if i >= self.children(n).len() {
            Seq::empty()
        } else {
            self.visit(self.children(n)[i], attributes) + self.below(n, i + 1, attributes)
        }
    }

    /// The place of a node in the document.
    pub open spec fn document_order(self, n: NodeId) -> usize {
        if n.0 < self.order.len() {
            self.order[n.0 as int]
        } else {
            usize::MAX
        }
    }

    /// `n` put into a list after all that stand no later in the document.
    pub open spec fn put(self, s: Seq<NodeId>, n: NodeId) -> Seq<NodeId>
        decreases s.len(),
    {
        if s.len() == 0 || self.document_order(s.last()) <= self.document_order(n) {
            s.push(n)
        } else {
            self.put(s.drop_last(), n).push(s.last())
        }
    }

    /// A list in document order, nodes of one place in the order they had.
    pub open spec fn sorted(self, s: Seq<NodeId>) -> Seq<NodeId>
        decreases s.len(),
    {
        if s.len() == 0 {
            s
        } else {
            self.put(self.sorted(s.drop_last()), s.last())
        }
    }

    pub open spec fn descendants(self, n: NodeId) -> Seq<NodeId> {
        self.sorted(self.below(n, 0, false))
    }

    /// The values of nodes, one after another.
    pub open spec fn values(self, s: Seq<NodeId>) -> Seq<char>
        decreases s.len(),
    {
        if s.len() == 0 {
            Seq::empty()
        } else {
            self.values(s.drop_last()) + self.value(s.last())
        }
    }

    pub open spec fn string_value(self, n: NodeId) -> Seq<char> {
        self.value(n) + self.values(self.descendants(n))
    }

    /// Ancestors, nearest first.
    pub open spec fn ancestors(self, n: NodeId) -> Seq<NodeId>
        decreases self.ranking().bound - self.height(n),
        when self.wf() && self.has(n)
    {
        match self.parent(n) {
            Some(p) => {
                proof {
                    self.lemma_parent(n);
                }
                seq![p] + self.ancestors(p)
            },
            None => Seq::empty(),
        }
    }

    pub open spec fn names(self, s: Seq<NodeId>) -> Seq<Seq<char>> {
        Seq::new(s.len(), |i: int| self.name(s[i]))
    }

    /// Absolute path of a node, as a form would write it.
    pub open spec fn path_of(self, n: NodeId) -> Seq<char> {
        "/"@ + join(self.names((seq![n] + self.ancestors(n)).reverse()), "/"@)
    }

    /// The tree with document order as its shape has it.
    pub open spec fn reindexed(self) -> Tree {
        Tree {
            order: match self.root {
                Some(root) => Seq::new(
                    self.nodes.len(),
                    |i: int| place_in(self.visit(root, true), NodeId(i as usize)),
                ),
                None => Seq::empty(),
            },
            ..self
        }
    }

    pub open spec fn with_node(self, n: NodeId, node: NodeModel) -> Tree {
        Tree { nodes: self.nodes.update(n.0 as int, node), ..self }
    }

    /// The tree with one more node, which nothing links to.
    pub open spec fn grown(self, node: NodeModel) -> Tree {
        Tree { nodes: self.nodes.push(node), ..self }
    }

    /// The tree with `child` as the last child of `parent`.
    pub open spec fn appended(self, parent: NodeId, child: NodeId) -> Tree {
        let t = self.with_node(child, NodeModel { parent: Some(parent), ..self.node(child) });
        t.with_node(
            parent,
            NodeModel { children: t.children(parent).push(child), ..t.node(parent) },
        )
    }

    /// The tree with a new attribute on `element`.
    pub open spec fn attributed(self, element: NodeId, name: Seq<char>, value: Seq<char>) -> Tree {
        let id = NodeId(self.nodes.len() as usize);
        let t = self.grown(
            NodeModel {
                parent: Some(element),
                ..bare_node(NodeKind::Attribute, name, value)
            },
        );
        t.with_node(
            element,
            NodeModel { attributes: t.attributes(element).push(id), ..t.node(element) },
        )
    }

    /// Whether a node is a lookup table of that name.
    pub open spec fn is_table(self, n: NodeId, id: Seq<char>) -> bool {
        self.name(n) == "instance"@ && exists|i: int|
            0 <= i < self.attributes(n).len() && self.name(#[trigger] self.attributes(n)[i])
                == "id"@ && self.value(self.attributes(n)[i]) == id
    }

    /// The first of some nodes that is a lookup table of that name.
    pub open spec fn first_table(self, s: Seq<NodeId>, id: Seq<char>) -> Option<NodeId>
        decreases s.len(),
    {
        if s.len() == 0 {
            None
        } else if self.is_table(s[0], id) {
            Some(s[0])
        } else {
            self.first_table(s.skip(1), id)
        }
    }

    /// The `<instance id="…">` element of a lookup table in this document.
    pub open spec fn instance_named(self, id: Seq<char>) -> Option<NodeId> {
        match self.root {
            Some(root) => self.first_table(seq![root] + self.descendants(root), id),
            None => None,
        }
    }

    // -----------------------------------------------------------------------
    // Facts
    // -----------------------------------------------------------------------

    pub proof fn lemma_ranking(self)
        requires
            self.wf(),
        ensures
            self.ranked(self.ranking()),
    {
    }

    pub proof fn lemma_parent(self, n: NodeId)
        requires
            self.wf(),
            self.has(n),
        ensures
            self.parent(n) matches Some(p) ==> self.has(p) && self.height(p) > self.height(n)
                && self.height(p) <= self.ranking().bound,
    {
        self.lemma_ranking();
        if let Some(p) = self.parent(n) {
            assert(self.nodes[n.0 as int].parent == Some(p));
            if self.children(p).contains(n) {
                let i = choose|i: int| 0 <= i < self.children(p).len() && self.children(p)[i] == n;
                assert(self.nodes[p.0 as int].children[i] == n);
            } else {
                let i = choose|i: int|
                    0 <= i < self.attributes(p).len() && self.attributes(p)[i] == n;
                assert(self.nodes[p.0 as int].attributes[i] == n);
            }
            assert(self.ranking().of[p.0 as int] <= self.ranking().bound);
        }
    }

    /// What a walk lists are nodes of the tree.
    pub proof fn lemma_visit_in(self, n: NodeId, attributes: bool)
        requires
            self.wf(),
            self.has(n),
        ensures
            self.all_in(self.visit(n, attributes)),
        decreases self.height(n), self.children(n).len() + 1,
    {
        self.lemma_ranking();
        self.lemma_below_in(n, 0, attributes);
        assert(self.all_in(self.attributes(n))) by {
            assert forall|i: int| 0 <= i < self.attributes(n).len() implies self.has(
                #[trigger] self.attributes(n)[i],
            ) by {
                assert(self.has(self.nodes[n.0 as int].attributes[i]));
            }
        }
        self.lemma_all_in_add(
            seq![n],
            if attributes {
                self.attributes(n)
            } else {
                Seq::empty()
            },
        );
        self.lemma_all_in_add(
            seq![n] + (if attributes {
                self.attributes(n)
            } else {
                Seq::empty()
            }),
            self.below(n, 0, attributes),
        );
    }

    pub proof fn lemma_below_in(self, n: NodeId, i: int, attributes: bool)
        requires
            self.wf(),
            self.has(n),
            0 <= i,
        ensures
            self.all_in(self.below(n, i, attributes)),
        decreases self.height(n), self.children(n).len() - i,
    {
        self.lemma_ranking();
        if i < self.children(n).len() {
            assert(self.has(self.nodes[n.0 as int].children[i]));
            self.lemma_visit_in(self.children(n)[i], attributes);
            self.lemma_below_in(n, i + 1, attributes);
            self.lemma_all_in_add(
                self.visit(self.children(n)[i], attributes),
                self.below(n, i + 1, attributes),
            );
        }
    }

    pub open spec fn all_in(self, s: Seq<NodeId>) -> bool {
        forall|i: int| 0 <= i < s.len() ==> self.has(#[trigger] s[i])
    }

    pub proof fn lemma_all_in_add(self, a: Seq<NodeId>, b: Seq<NodeId>)
        requires
            self.all_in(a),
            self.all_in(b),
        ensures
            self.all_in(a + b),
    {
        let s = a + b;
        assert forall|i: int| 0 <= i < s.len() implies self.has(#[trigger] s[i]) by {
            if i < a.len() {
                assert(self.has(a[i]));
            } else {
                assert(self.has(b[i - a.len()]));
            }
        }
    }

    pub proof fn lemma_put_in(self, s: Seq<NodeId>, n: NodeId)
        requires
            self.all_in(s),
            self.has(n),
        ensures
            self.all_in(self.put(s, n)),
            self.put(s, n).len() == s.len() + 1,
        decreases s.len(),
    {
        if s.len() > 0 && self.document_order(s.last()) > self.document_order(n) {
            assert(self.all_in(s.drop_last())) by {
                assert forall|i: int| 0 <= i < s.drop_last().len() implies self.has(
                    #[trigger] s.drop_last()[i],
                ) by {
                    assert(self.has(s[i]));
                }
            }
            self.lemma_put_in(s.drop_last(), n);
            assert(self.has(s[s.len() - 1]));
        }
    }

    pub proof fn lemma_sorted_in(self, s: Seq<NodeId>)
        requires
            self.all_in(s),
        ensures
            self.all_in(self.sorted(s)),
            self.sorted(s).len() == s.len(),
        decreases s.len(),
    {
        if s.len() > 0 {
            assert forall|i: int| 0 <= i < s.drop_last().len() implies self.has(
                #[trigger] s.drop_last()[i],
            ) by {
                assert(self.has(s[i]));
            }
            self.lemma_sorted_in(s.drop_last());
            assert(self.has(s[s.len() - 1]));
            self.lemma_put_in(self.sorted(s.drop_last()), s.last());
        }
    }

    pub proof fn lemma_descendants_in(self, n: NodeId)
        requires
            self.wf(),
            self.has(n),
        ensures
            self.all_in(self.descendants(n)),
    {
        self.lemma_below_in(n, 0, false);
        self.lemma_sorted_in(self.below(n, 0, false));
    }

    pub proof fn lemma_ancestors_in(self, n: NodeId)
        requires
            self.wf(),
            self.has(n),
        ensures
            self.all_in(self.ancestors(n)),
        decreases self.ranking().bound - self.height(n),
    {
        self.lemma_parent(n);
        if let Some(p) = self.parent(n) {
            self.lemma_ancestors_in(p);
            self.lemma_all_in_add(seq![p], self.ancestors(p));
        }
    }

    /// The nodes that a stack still has to give, its last one first.
    pub open spec fn pending(self, stack: Seq<NodeId>, attributes: bool) -> Seq<NodeId>
        decreases stack.len(),
    {
        if stack.len() == 0 {
            Seq::empty()
        } else {
            self.visit(stack.last(), attributes) + self.pending(stack.drop_last(), attributes)
        }
    }
}

// ---------------------------------------------------------------------------
// Keeping a tree walkable
// ---------------------------------------------------------------------------

impl Tree {
    /// Whether a height can be found for every node at which `upper` stands
    /// above `lower`: then a link from one to the other closes no circle.
    pub open spec fn can_hold(self, upper: NodeId, lower: NodeId) -> bool {
        exists|rank: Ranking|
            #[trigger] self.ranked(rank) && rank.of[lower.0 as int] < rank.of[upper.0 as int]
    }

    /// From `base` on, nodes link only to later nodes, and those before it
    /// link to none of them.
    pub open spec fn split_at(self, base: int) -> bool {
        &&& forall|p: int, i: int|
            0 <= p < self.nodes.len() && 0 <= i < self.nodes[p].children.len() ==> if p < base {
                (#[trigger] self.nodes[p].children[i]).0 < base
            } else {
                self.nodes[p].children[i].0 > p
            }
        &&& forall|p: int, i: int|
            0 <= p < self.nodes.len() && 0 <= i < self.nodes[p].attributes.len() ==> if p < base {
                (#[trigger] self.nodes[p].attributes[i]).0 < base
            } else {
                self.nodes[p].attributes[i].0 > p
            }
    }

    pub proof fn lemma_split_can_hold(self, base: int, upper: NodeId, lower: NodeId)
        requires
            self.wf(),
            self.split_at(base),
            upper.0 < base <= lower.0 < self.nodes.len(),
        ensures
            self.can_hold(upper, lower),
    {
        self.lemma_ranking();
        let r = self.ranking();
        let n = self.nodes.len();
        let rank = Ranking {
            of: Seq::new(
                n,
                |i: int|
                    if i < base {
                        r.of[i] + n
                    } else {
                        (n - i) as nat
                    },
            ),
            bound: r.bound + n,
        };
        assert forall|p: int| 0 <= p < n implies #[trigger] rank.of[p] <= rank.bound by {
            assert(r.of[p] <= r.bound);
        }
        assert(self.ranked(rank));
    }

    pub proof fn lemma_appended_wf(self, parent: NodeId, child: NodeId)
        requires
            self.wf(),
            self.has(parent),
            self.has(child),
            self.can_hold(parent, child),
        ensures
            self.appended(parent, child).wf(),
    {
        let t = self.appended(parent, child);
        let rank = choose|rank: Ranking|
            #[trigger] self.ranked(rank) && rank.of[child.0 as int] < rank.of[parent.0 as int];
        assert forall|p: int, i: int|
            0 <= p < t.nodes.len() && 0 <= i < t.nodes[p].children.len() implies t.has(
            #[trigger] t.nodes[p].children[i],
        ) && rank.of[t.nodes[p].children[i].0 as int] < rank.of[p] by {
            if i < self.nodes[p].children.len() {
                assert(t.nodes[p].children[i] == self.nodes[p].children[i]);
            } else {
                assert(p == parent.0 && t.nodes[p].children[i] == child);
            }
        }
        assert forall|p: int, i: int|
            0 <= p < t.nodes.len() && 0 <= i < t.nodes[p].attributes.len() implies t.has(
            #[trigger] t.nodes[p].attributes[i],
        ) && rank.of[t.nodes[p].attributes[i].0 as int] < rank.of[p] by {
            assert(t.nodes[p].attributes[i] == self.nodes[p].attributes[i]);
        }
        assert forall|n: int| 0 <= n < t.nodes.len() implies ((
        #[trigger] t.nodes[n]).parent matches Some(p) ==> t.has(p) && (t.children(p).contains(
            NodeId(n as usize),
        ) || t.attributes(p).contains(NodeId(n as usize)))) by {
            if let Some(p) = t.nodes[n].parent {
                if n == child.0 {
                    assert(p == parent);
                    assert(t.children(p)[t.children(p).len() - 1] == child);
                } else {
                    assert(self.nodes[n].parent == Some(p));
                    if self.children(p).contains(NodeId(n as usize)) {
                        let i = choose|i: int|
                            0 <= i < self.children(p).len() && self.children(p)[i] == NodeId(
                                n as usize,
                            );
                        assert(t.children(p)[i] == NodeId(n as usize));
                    }
                }
            }
        }
        assert(t.ranked(rank));
    }

    pub proof fn lemma_grown_wf(self, kind: NodeKind, name: Seq<char>, value: Seq<char>)
        requires
            self.wf(),
            self.nodes.len() < usize::MAX,
        ensures
            self.grown(bare_node(kind, name, value)).wf(),
    {
        let t = self.grown(bare_node(kind, name, value));
        self.lemma_ranking();
        let r = self.ranking();
        let rank = Ranking { of: r.of.push(0), bound: r.bound };
        assert forall|p: int, i: int|
            0 <= p < t.nodes.len() && 0 <= i < t.nodes[p].children.len() implies t.has(
            #[trigger] t.nodes[p].children[i],
        ) && rank.of[t.nodes[p].children[i].0 as int] < rank.of[p] by {
            assert(t.nodes[p].children[i] == self.nodes[p].children[i]);
        }
        assert forall|p: int, i: int|
            0 <= p < t.nodes.len() && 0 <= i < t.nodes[p].attributes.len() implies t.has(
            #[trigger] t.nodes[p].attributes[i],
        ) && rank.of[t.nodes[p].attributes[i].0 as int] < rank.of[p] by {
            assert(t.nodes[p].attributes[i] == self.nodes[p].attributes[i]);
        }
        assert forall|p: int| 0 <= p < t.nodes.len() implies #[trigger] rank.of[p]
            <= rank.bound by {
            if p < self.nodes.len() {
                assert(r.of[p] <= r.bound);
            }
        }
        assert forall|n: int| 0 <= n < t.nodes.len() implies ((
        #[trigger] t.nodes[n]).parent matches Some(p) ==> t.has(p) && (t.children(p).contains(
            NodeId(n as usize),
        ) || t.attributes(p).contains(NodeId(n as usize)))) by {
            if n < self.nodes.len() {
                assert(t.nodes[n] == self.nodes[n]);
            }
        }
        assert(t.ranked(rank));
    }

    pub proof fn lemma_attributed_wf(self, element: NodeId, name: Seq<char>, value: Seq<char>)
        requires
            self.wf(),
            self.has(element),
            self.nodes.len() < usize::MAX,
        ensures
            self.attributed(element, name, value).wf(),
    {
        let t = self.attributed(element, name, value);
        let id = NodeId(self.nodes.len() as usize);
        self.lemma_ranking();
        let r = self.ranking();
        let n = self.nodes.len();
        let rank = Ranking {
            of: Seq::new(
                n + 1,
                |i: int|
                    if i < n {
                        r.of[i] + 1
                    } else {
                        0
                    },
            ),
            bound: r.bound + 1,
        };
        assert forall|p: int, i: int|
            0 <= p < t.nodes.len() && 0 <= i < t.nodes[p].children.len() implies t.has(
            #[trigger] t.nodes[p].children[i],
        ) && rank.of[t.nodes[p].children[i].0 as int] < rank.of[p] by {
            assert(t.nodes[p].children[i] == self.nodes[p].children[i]);
        }
        assert forall|p: int, i: int|
            0 <= p < t.nodes.len() && 0 <= i < t.nodes[p].attributes.len() implies t.has(
            #[trigger] t.nodes[p].attributes[i],
        ) && rank.of[t.nodes[p].attributes[i].0 as int] < rank.of[p] by {
            if i < self.nodes[p].attributes.len() {
                assert(t.nodes[p].attributes[i] == self.nodes[p].attributes[i]);
            } else {
                assert(t.nodes[p].attributes[i] == id);
            }
        }
        assert forall|p: int| 0 <= p < t.nodes.len() implies #[trigger] rank.of[p]
            <= rank.bound by {
            if p < n {
                assert(r.of[p] <= r.bound);
            }
        }
        assert forall|m: int| 0 <= m < t.nodes.len() implies ((
        #[trigger] t.nodes[m]).parent matches Some(p) ==> t.has(p) && (t.children(p).contains(
            NodeId(m as usize),
        ) || t.attributes(p).contains(NodeId(m as usize)))) by {
            if let Some(p) = t.nodes[m].parent {
                if m == n {
                    assert(t.attributes(p)[t.attributes(p).len() - 1] == id);
                } else {
                    assert(self.nodes[m].parent == Some(p));
                    if self.attributes(p).contains(NodeId(m as usize)) {
                        let i = choose|i: int|
                            0 <= i < self.attributes(p).len() && self.attributes(p)[i] == NodeId(
                                m as usize,
                            );
                        assert(t.attributes(p)[i] == NodeId(m as usize));
                    }
                }
            }
        }
        assert(t.ranked(rank));
    }

    /// What a tree lists does not depend on its document order.
    pub proof fn lemma_rerooted_wf(self, root: Option<NodeId>, order: Seq<usize>)
        requires
            order.len() <= self.nodes.len(),
            self.wf(),
            root matches Some(r) ==> self.has(r),
        ensures
            (Tree { root, order, ..self }).wf(),
    {
        let t = Tree { root, order, ..self };
        self.lemma_ranking();
        assert forall|n: int| 0 <= n < t.nodes.len() implies ((
        #[trigger] t.nodes[n]).parent matches Some(p) ==> t.has(p) && (t.children(p).contains(
            NodeId(n as usize),
        ) || t.attributes(p).contains(NodeId(n as usize)))) by {
            assert(t.nodes[n] == self.nodes[n]);
        }
        assert(t.ranked(self.ranking()));
    }

    /// The tree with another value at a node.
    pub open spec fn with_value(self, n: NodeId, value: Seq<char>) -> Tree {
        self.with_node(n, NodeModel { value, ..self.node(n) })
    }

    pub proof fn lemma_with_value_wf(self, n: NodeId, value: Seq<char>)
        requires
            self.wf(),
            self.has(n),
        ensures
            self.with_value(n, value).wf(),
    {
        let t = self.with_value(n, value);
        self.lemma_ranking();
        assert forall|p: int, i: int|
            0 <= p < t.nodes.len() && 0 <= i < t.nodes[p].children.len() implies t.has(
            #[trigger] t.nodes[p].children[i],
        ) && self.ranking().of[t.nodes[p].children[i].0 as int] < self.ranking().of[p] by {
            assert(t.nodes[p].children[i] == self.nodes[p].children[i]);
        }
        assert forall|p: int, i: int|
            0 <= p < t.nodes.len() && 0 <= i < t.nodes[p].attributes.len() implies t.has(
            #[trigger] t.nodes[p].attributes[i],
        ) && self.ranking().of[t.nodes[p].attributes[i].0 as int] < self.ranking().of[p] by {
            assert(t.nodes[p].attributes[i] == self.nodes[p].attributes[i]);
        }
        assert forall|m: int| 0 <= m < t.nodes.len() implies ((
        #[trigger] t.nodes[m]).parent matches Some(p) ==> t.has(p) && (t.children(p).contains(
            NodeId(m as usize),
        ) || t.attributes(p).contains(NodeId(m as usize)))) by {
            assert(t.nodes[m].parent == self.nodes[m].parent);
            if let Some(p) = t.nodes[m].parent {
                assert(t.children(p) == self.children(p));
                assert(t.attributes(p) == self.attributes(p));
            }
        }
        assert(t.ranked(self.ranking()));
    }
}

// ---------------------------------------------------------------------------
// Instances
// ---------------------------------------------------------------------------

pub(crate) fn copied(ids: &Vec<NodeId>) -> (r: Vec<NodeId>)
    ensures
        r@ == ids@,
{
    let mut out: Vec<NodeId> = Vec::new();
    let n = ids.len();
    for i in 0..n
        invariant
            n == ids@.len(),
            out@ == ids@.take(i as int),
    {
        out.push(ids[i]);
    }
    assert(ids@.take(n as int) == ids@);
    out
}

impl Clone for Node {
    fn clone(&self) -> (r: Node)
        ensures
            r@ == self@,
    {
        Node {
            kind: self.kind,
            name: self.name.clone(),
            value: self.value.clone(),
            parent: self.parent,
            children: copied(&self.children),
            attributes: copied(&self.attributes),
        }
    }
}

impl Clone for Instance {
    fn clone(&self) -> (r: Instance)
        ensures
            r@ == self@,
    {
        let mut nodes: Vec<Node> = Vec::new();
        let n = self.nodes.len();
        for i in 0..n
            invariant
                n == self.nodes@.len(),
                nodes@.len() == i,
                forall|j: int| 0 <= j < i ==> (#[trigger] nodes@[j])@ == self.nodes@[j]@,
        {
            nodes.push(self.nodes[i].clone());
        }
        let mut order: Vec<usize> = Vec::new();
        let m = self.order.len();
        for i in 0..m
            invariant
                m == self.order@.len(),
                order@ == self.order@.take(i as int),
        {
            order.push(self.order[i]);
        }
        assert(order@ == self.order@);
        let r = Instance { nodes, root: self.root, order };
        assert(r@.nodes == self@.nodes);
        r
    }
}

impl Default for Instance {
    fn default() -> (r: Instance)
        ensures
            r@ == Tree::empty(),
            r@.wf(),
    {
        Instance::new()
    }
}

impl Instance {
    pub fn new() -> (r: Instance)
        ensures
            r@ == Tree::empty(),
            r@.wf(),
    {
        let r = Instance { nodes: Vec::new(), root: None, order: Vec::new() };
        proof {
            assert(r@ == Tree::empty());
            assert(r@.ranked(Ranking { of: Seq::empty(), bound: 0 }));
        }
        r
    }

    pub fn root(&self) -> (r: Option<NodeId>)
        ensures
            r == self@.root,
    {
        self.root
    }

    pub fn node(&self, id: NodeId) -> (r: &Node)
        requires
            self@.has(id),
        ensures
            r@ == self@.node(id),
    {
        &self.nodes[id.0]
    }

    pub fn node_mut(&mut self, id: NodeId) -> (r: &mut Node)
        requires
            old(self)@.has(id),
        ensures
            r@ == old(self)@.node(id),
            final(self)@ == old(self)@.with_node(id, final(r)@),
    {
        let ghost before = self.nodes@;
        let ghost all = self@.nodes;
        let r = &mut self.nodes[id.0];
        proof {
            let after = before.update(id.0 as int, *final(r));
            assert(Seq::new(after.len(), |i: int| after[i]@) == all.update(id.0 as int, final(r)@));
        }
        r
    }

    pub fn len(&self) -> (r: usize)
        ensures
            r == self@.nodes.len(),
    {
        self.nodes.len()
    }

    pub fn is_empty(&self) -> (r: bool)
        ensures
            r == (self@.nodes.len() == 0),
    {
        self.nodes.len() == 0
    }
}

impl Instance {
    /// A new element that stands nowhere yet. Until order is recomputed, it
    /// comes after all that has a place in the document.
    pub fn create_element(&mut self, name: &str, value: &str) -> (id: NodeId)
        ensures
            id == NodeId(old(self)@.nodes.len() as usize),
            id.0 == old(self)@.nodes.len(),
            final(self)@ == old(self)@.grown(bare_node(NodeKind::Element, name@, value@)),
            final(self)@.nodes.len() <= usize::MAX,
            old(self)@.wf() ==> final(self)@.wf(),
            old(self)@.wf() ==> final(self)@.document_order(id) == usize::MAX,
    {
        let ghost before = self@;
        let id = NodeId(self.nodes.len());
        self.nodes.push(
            Node {
                kind: NodeKind::Element,
                name: name.to_string(),
                value: value.to_string(),
                parent: None,
                children: Vec::new(),
                attributes: Vec::new(),
            },
        );
        let n = self.nodes.len();
        proof {
            assert(self@.nodes == before.nodes.push(
                bare_node(NodeKind::Element, name@, value@),
            ));
            if before.wf() {
                before.lemma_grown_wf(NodeKind::Element, name@, value@);
            }
        }
        id
    }

    /// Make a node the last child of another.
    ///
    /// The tree stays one that can be walked where the new link closes no
    /// circle.
    pub fn append_child(&mut self, parent: NodeId, child: NodeId)
        requires
            old(self)@.has(parent),
            old(self)@.has(child),
        ensures
            final(self)@ == old(self)@.appended(parent, child),
            old(self)@.wf() && old(self)@.can_hold(parent, child) ==> final(self)@.wf(),
    {
        let ghost before = self@;
        self.node_mut(child).parent = Some(parent);
        self.node_mut(parent).children.push(child);
        proof {
            assert(self@ == before.appended(parent, child));
            if before.wf() && before.can_hold(parent, child) {
                before.lemma_appended_wf(parent, child);
            }
        }
    }

    pub fn set_attribute(&mut self, element: NodeId, name: &str, value: &str)
        requires
            old(self)@.has(element),
        ensures
            final(self)@ == old(self)@.attributed(element, name@, value@),
            final(self)@.nodes.len() <= usize::MAX,
            old(self)@.wf() ==> final(self)@.wf(),
    {
        let ghost before = self@;
        let id = NodeId(self.nodes.len());
        self.nodes.push(
            Node {
                kind: NodeKind::Attribute,
                name: name.to_string(),
                value: value.to_string(),
                parent: Some(element),
                children: Vec::new(),
                attributes: Vec::new(),
            },
        );
        let n = self.nodes.len();
        assert(self@.nodes == before.nodes.push(
            NodeModel {
                parent: Some(element),
                ..bare_node(NodeKind::Attribute, name@, value@)
            },
        ));
        self.node_mut(element).attributes.push(id);
        proof {
            assert(self@ == before.attributed(element, name@, value@));
            if before.wf() {
                before.lemma_attributed_wf(element, name@, value@);
            }
        }
    }

    pub fn set_root(&mut self, id: NodeId)
        requires
            old(self)@.wf(),
            old(self)@.has(id),
        ensures
            final(self)@ == (Tree { root: Some(id), ..old(self)@ }).reindexed(),
            final(self)@.wf(),
    {
        proof {
            self@.lemma_rerooted_wf(Some(id), self@.order);
        }
        let ghost before = self@;
        self.root = Some(id);
        assert(self@ == Tree { root: Some(id), ..before });
        self.reindex();
    }

    /// Recompute document order. Call after the shape changes, when a repeat
    /// instance was added for example.
    pub fn reindex(&mut self)
        requires
            old(self)@.wf(),
        ensures
            final(self)@ == old(self)@.reindexed(),
            final(self)@.wf(),
    {
        let ghost tree = self@;
        let root = match self.root {
            Some(root) => root,
            None => {
                self.order = Vec::new();
                proof {
                    assert(self@ == tree.reindexed());
                    tree.lemma_rerooted_wf(None, self@.order);
                }
                return;
            },
        };
        let mut order: Vec<usize> = Vec::new();
        let n = self.nodes.len();
        for i in 0..n
            invariant
                order@.len() == i,
                forall|j: int| 0 <= j < i ==> #[trigger] order@[j] == usize::MAX,
        {
            order.push(usize::MAX);
        }
        let ghost all = tree.visit(root, true);
        let ghost mut done: Seq<NodeId> = Seq::empty();
        let mut counter: usize = 0;
        let mut stack: Vec<NodeId> = Vec::new();
        stack.push(root);
        proof {
            tree.lemma_visit_in(root, true);
            assert(stack@.drop_last() == Seq::<NodeId>::empty());
            assert(tree.pending(Seq::<NodeId>::empty(), true) == Seq::<NodeId>::empty());
            assert(done + tree.pending(stack@, true) == all);
        }
        while stack.len() > 0
            invariant
                tree == self@,
                tree.wf(),
                n == tree.nodes.len(),
                order@.len() == n,
                tree.all_in(stack@),
                counter == held(done.len() as int),
                done + tree.pending(stack@, true) == all,
                forall|j: int|
                    0 <= j < n ==> #[trigger] order@[j] == place_in(done, NodeId(j as usize)),
            decreases tree.pending(stack@, true).len(),
        {
            let ghost before = stack@;
            let id = stack.pop().unwrap();
            let ghost rest = stack@;
            assert(rest == before.drop_last());
            assert(tree.has(before[before.len() - 1]));
            proof {
                Self::lemma_place_push(done, id);
            }
            order.set(id.0, counter);
            counter = if counter < usize::MAX {
                counter + 1
            } else {
                counter
            };
            proof {
                done = done.push(id);
            }
            let node = &self.nodes[id.0];
            assert(node@ == tree.node(id));
            let m = node.attributes.len();
            let ghost seen = done;
            for k in 0..m
                invariant
                    tree == self@,
                    tree.wf(),
                    tree.has(id),
                    node@ == tree.node(id),
                    n == tree.nodes.len(),
                    m == tree.attributes(id).len(),
                    order@.len() == n,
                    counter == held(done.len() as int),
                    done == seen + tree.attributes(id).take(k as int),
                    forall|j: int|
                        0 <= j < n ==> #[trigger] order@[j] == place_in(done, NodeId(j as usize)),
            {
                let a = node.attributes[k];
                assert(tree.has(tree.nodes[id.0 as int].attributes[k as int]));
                proof {
                    Self::lemma_place_push(done, a);
                }
                order.set(a.0, counter);
                counter = if counter < usize::MAX {
                    counter + 1
                } else {
                    counter
                };
                proof {
                    done = done.push(a);
                    assert(tree.attributes(id).take(k + 1) == tree.attributes(id).take(
                        k as int,
                    ).push(a));
                }
            }
            assert(tree.attributes(id).take(m as int) == tree.attributes(id));
            self.push_children(&mut stack, id, true);
            proof {
                let v = tree.visit(id, true);
                assert(v == seq![id] + tree.attributes(id) + tree.below(id, 0, true));
                assert(done + (tree.below(id, 0, true) + tree.pending(rest, true)) == all);
            }
        }
        proof {
            assert(tree.pending(stack@, true) == Seq::<NodeId>::empty());
            assert(done == all);
        }
        self.order = order;
        proof {
            assert(self@.order == tree.reindexed().order);
            assert(self@.nodes == tree.nodes);
            assert(self@ == tree.reindexed());
            tree.lemma_rerooted_wf(tree.root, self@.order);
        }
    }

    proof fn lemma_place_push(s: Seq<NodeId>, n: NodeId)
        ensures
            place_in(s.push(n), n) == held(s.len() as int),
            forall|m: NodeId| m != n ==> #[trigger] place_in(s.push(n), m) == place_in(s, m),
    {
        assert(s.push(n).drop_last() == s);
    }

    /// Put the children of a node on a stack, the first on top.
    fn push_children(&self, stack: &mut Vec<NodeId>, id: NodeId, attributes: bool)
        requires
            self@.wf(),
            self@.has(id),
            self@.all_in(old(stack)@),
        ensures
            self@.all_in(final(stack)@),
            self@.pending(final(stack)@, attributes) == self@.below(id, 0, attributes)
                + self@.pending(old(stack)@, attributes),
    {
        let ghost tree = self@;
        let ghost rest = stack@;
        let node = &self.nodes[id.0];
        assert(node@ == tree.node(id));
        let mut j: usize = node.children.len();
        assert(tree.below(id, j as int, attributes) + tree.pending(rest, attributes)
            == tree.pending(rest, attributes));
        while j > 0
            invariant
                tree == self@,
                tree.wf(),
                tree.has(id),
                node@ == tree.node(id),
                j <= tree.children(id).len(),
                tree.all_in(stack@),
                tree.pending(stack@, attributes) == tree.below(id, j as int, attributes)
                    + tree.pending(rest, attributes),
            decreases j,
        {
            let c = node.children[j - 1];
            assert(tree.has(tree.nodes[id.0 as int].children[j - 1]));
            let ghost before = stack@;
            stack.push(c);
            proof {
                assert(stack@.drop_last() == before);
                assert(tree.below(id, j - 1, attributes) == tree.visit(c, attributes) + tree.below(
                    id,
                    j as int,
                    attributes,
                ));
                assert(tree.pending(stack@, attributes) == tree.visit(c, attributes)
                    + tree.pending(before, attributes));
            }
            j = j - 1;
        }
    }

    pub fn document_order(&self, id: NodeId) -> (r: usize)
        ensures
            r == self@.document_order(id),
    {
        if id.0 < self.order.len() {
            self.order[id.0]
        } else {
            usize::MAX
        }
    }

    /// Nodes in document order, those of one place in the order they had.
    pub(crate) fn sorted(&self, ids: &Vec<NodeId>) -> (r: Vec<NodeId>)
        ensures
            r@ == self@.sorted(ids@),
    {
        let mut out: Vec<NodeId> = Vec::new();
        let n = ids.len();
        assert(ids@.take(0) == Seq::<NodeId>::empty());
        for i in 0..n
            invariant
                n == ids@.len(),
                out@ == self@.sorted(ids@.take(i as int)),
        {
            let id = ids[i];
            assert(ids@.take(i + 1).drop_last() == ids@.take(i as int));
            let ghost before = out@;
            let key = self.document_order(id);
            let mut j: usize = out.len();
            assert(before.take(j as int) + before.skip(j as int) == before);
            while j > 0 && self.document_order(out[j - 1]) > key
                invariant
                    out@ == before,
                    j <= before.len(),
                    key == self@.document_order(id),
                    self@.put(before, id) == self@.put(before.take(j as int), id) + before.skip(
                        j as int,
                    ),
                decreases j,
            {
                proof {
                    let s = before.take(j as int);
                    assert(s.drop_last() == before.take(j - 1));
                    assert(self@.put(s, id) == self@.put(s.drop_last(), id).push(s.last()));
                    assert(self@.put(s.drop_last(), id).push(s.last()) + before.skip(j as int)
                        == self@.put(before.take(j - 1), id) + before.skip(j - 1));
                }
                j = j - 1;
            }
            out.insert(j, id);
            proof {
                let s = before.take(j as int);
                assert(self@.put(s, id) == s.push(id));
                assert(out@ == s.push(id) + before.skip(j as int));
            }
        }
        assert(ids@.take(n as int) == ids@);
        out
    }

    /// Every descendant of a node, in document order, excluding itself.
    pub fn descendants(&self, id: NodeId) -> (r: Vec<NodeId>)
        requires
            self@.wf(),
            self@.has(id),
        ensures
            r@ == self@.descendants(id),
            self@.all_in(r@),
    {
        let ghost tree = self@;
        let ghost all = tree.below(id, 0, false);
        let mut out: Vec<NodeId> = Vec::new();
        let mut stack: Vec<NodeId> = Vec::new();
        self.push_children(&mut stack, id, false);
        proof {
            assert(tree.pending(Seq::<NodeId>::empty(), false) == Seq::<NodeId>::empty());
            assert(out@ + tree.pending(stack@, false) == all);
        }
        while stack.len() > 0
            invariant
                tree == self@,
                tree.wf(),
                tree.all_in(stack@),
                out@ + tree.pending(stack@, false) == all,
            decreases tree.pending(stack@, false).len(),
        {
            let ghost before = stack@;
            let current = stack.pop().unwrap();
            let ghost rest = stack@;
            assert(rest == before.drop_last());
            assert(tree.has(before[before.len() - 1]));
            let ghost was = out@;
            out.push(current);
            self.push_children(&mut stack, current, false);
            proof {
                let v = tree.visit(current, false);
                assert(v == seq![current] + tree.below(current, 0, false));
                assert(out@ + (tree.below(current, 0, false) + tree.pending(rest, false)) == all);
            }
        }
        proof {
            assert(out@ == all);
            tree.lemma_descendants_in(id);
        }
        self.sorted(&out)
    }

    /// The string-value of a node: for an element, the concatenation of all
    /// text below it, in document order; for an attribute, its value.
    ///
    /// Returning only the element's own text is the tempting shortcut, and
    /// it is right for every leaf, which is every question. It is wrong for
    /// a group, where XPath says the value is everything underneath, and a
    /// form that asks for one would silently read an empty string.
    ///
    /// Inter-element whitespace is not part of this: the parser keeps
    /// values, not layout, so a container's value here is its answers run
    /// together without the indentation a serializer would put between them.
    pub fn string_value(&self, id: NodeId) -> (r: String)
        requires
            self@.wf(),
            self@.has(id),
        ensures
            r@ == self@.string_value(id),
    {
        let ghost tree = self@;
        let mut out = self.node(id).value.clone();
        let ids = self.descendants(id);
        let n = ids.len();
        assert(ids@.take(0) == Seq::<NodeId>::empty());
        assert(tree.value(id) + tree.values(ids@.take(0)) == tree.value(id));
        for i in 0..n
            invariant
                tree == self@,
                n == ids@.len(),
                tree.all_in(ids@),
                out@ == tree.value(id) + tree.values(ids@.take(i as int)),
        {
            assert(ids@.take(i + 1).drop_last() == ids@.take(i as int));
            assert(tree.has(ids@[i as int]));
            out.append(self.node(ids[i]).value.as_str());
        }
        assert(ids@.take(n as int) == ids@);
        out
    }

    /// Children of an element, elements only.
    pub fn children(&self, id: NodeId) -> (r: Vec<NodeId>)
        requires
            self@.has(id),
        ensures
            r@ == self@.children(id),
            self@.wf() ==> self@.all_in(r@),
    {
        proof {
            if self@.wf() {
                self@.lemma_children_in(id);
            }
        }
        copied(&self.node(id).children)
    }

    pub fn parent(&self, id: NodeId) -> (r: Option<NodeId>)
        requires
            self@.has(id),
        ensures
            r == self@.parent(id),
            self@.wf() ==> (r matches Some(p) ==> self@.has(p)),
    {
        proof {
            if self@.wf() {
                self@.lemma_parent(id);
            }
        }
        self.node(id).parent
    }

    pub fn attributes(&self, id: NodeId) -> (r: Vec<NodeId>)
        requires
            self@.has(id),
        ensures
            r@ == self@.attributes(id),
            self@.wf() ==> self@.all_in(r@),
    {
        proof {
            if self@.wf() {
                self@.lemma_children_in(id);
            }
        }
        copied(&self.node(id).attributes)
    }

    /// Ancestors, nearest first.
    pub fn ancestors(&self, id: NodeId) -> (r: Vec<NodeId>)
        requires
            self@.wf(),
            self@.has(id),
        ensures
            r@ == self@.ancestors(id),
            self@.all_in(r@),
    {
        let ghost tree = self@;
        let mut out: Vec<NodeId> = Vec::new();
        let mut here = id;
        let mut current = self.parent(id);
        proof {
            tree.lemma_ancestors_in(id);
            tree.lemma_parent(id);
        }
        while current.is_some()
            invariant
                tree == self@,
                tree.wf(),
                tree.has(id),
                tree.has(here),
                current == tree.parent(here),
                current matches Some(p) ==> tree.has(p),
                out@ + tree.ancestors(here) == tree.ancestors(id),
            decreases tree.ranking().bound - tree.height(here),
        {
            let node = current.unwrap();
            proof {
                tree.lemma_parent(here);
            }
            let ghost was = out@;
            out.push(node);
            assert(was + (seq![node] + tree.ancestors(node)) == out@ + tree.ancestors(node));
            here = node;
            current = self.parent(node);
        }
        assert(out@ == tree.ancestors(id));
        out
    }

    /// Absolute path of a node, as a form would write it.
    pub fn path_of(&self, id: NodeId) -> (r: String)
        requires
            self@.wf(),
            self@.has(id),
        ensures
            r@ == self@.path_of(id),
    {
        let ghost tree = self@;
        let up = self.ancestors(id);
        let ghost line = (seq![id] + up@).reverse();
        let mut parts: Vec<String> = Vec::new();
        let mut i: usize = up.len();
        while i > 0
            invariant
                tree == self@,
                i <= up@.len(),
                tree.all_in(up@),
                line == (seq![id] + up@).reverse(),
                texts(parts@) == tree.names(line).take(up@.len() - i),
            decreases i,
        {
            let ghost was = parts@;
            assert(tree.has(up@[i - 1]));
            parts.push(self.node(up[i - 1]).name.clone());
            proof {
                let k = up@.len() - i;
                assert(line[k] == up@[i - 1]);
                assert(texts(parts@) == texts(was).push(tree.name(up@[i - 1])));
                assert(tree.names(line).take(k + 1) == tree.names(line).take(k).push(
                    tree.names(line)[k],
                ));
            }
            i = i - 1;
        }
        let ghost was = parts@;
        parts.push(self.node(id).name.clone());
        proof {
            let k = up@.len() as int;
            assert(line[k] == id);
            assert(texts(parts@) == texts(was).push(tree.name(id)));
            assert(texts(parts@) == tree.names(line));
        }
        let rest = joined(&parts, "/");
        crate::text::cat2("/", rest.as_str())
    }

    /// The `<instance id="…">` element of a lookup table in this document.
    ///
    /// The element itself, not its content: forms write
    /// `instance('lotes')/root/item`, where `root` is the element wrapping
    /// the items. Returning the content instead makes that next step look
    /// for a `root` inside `root`, which matches nothing and reads as an
    /// empty table rather than as a mistake.
    pub fn instance_named(&self, id: &str) -> (r: Option<NodeId>)
        requires
            self@.wf(),
        ensures
            r == self@.instance_named(id@),
            r matches Some(n) ==> self@.has(n),
    {
        let ghost tree = self@;
        let root = match self.root() {
            Some(root) => root,
            None => {
                return None;
            },
        };
        let mut candidates: Vec<NodeId> = Vec::new();
        candidates.push(root);
        let mut below = self.descendants(root);
        candidates.append(&mut below);
        let ghost all = candidates@;
        assert(all == seq![root] + tree.descendants(root));
        assert(all.skip(0) == all);
        let n = candidates.len();
        for i in 0..n
            invariant
                tree == self@,
                tree.wf(),
                n == all.len(),
                all == candidates@,
                tree.all_in(all),
                tree.root == Some(root),
                all == seq![root] + tree.descendants(root),
                tree.first_table(all, id@) == tree.first_table(all.skip(i as int), id@),
        {
            let node = candidates[i];
            assert(tree.has(all[i as int]));
            assert(all.skip(i as int).skip(1) == all.skip(i + 1));
            if self.is_table(node, id) {
                return Some(node);
            }
        }
        None
    }

    fn is_table(&self, node: NodeId, id: &str) -> (r: bool)
        requires
            self@.wf(),
            self@.has(node),
        ensures
            r == self@.is_table(node, id@),
    {
        let ghost tree = self@;
        if !same(self.node(node).name.as_str(), "instance") {
            return false;
        }
        let ids = self.attributes(node);
        let n = ids.len();
        for i in 0..n
            invariant
                tree == self@,
                n == ids@.len(),
                ids@ == tree.attributes(node),
                tree.all_in(ids@),
                tree.name(node) == "instance"@,
                forall|j: int|
                    0 <= j < i ==> !(tree.name(#[trigger] tree.attributes(node)[j]) == "id"@
                        && tree.value(tree.attributes(node)[j]) == id@),
        {
            assert(tree.has(ids@[i as int]));
            let a = self.node(ids[i]);
            if same(a.name.as_str(), "id") && same(a.value.as_str(), id) {
                assert(tree.name(tree.attributes(node)[i as int]) == "id"@);
                return true;
            }
        }
        false
    }
}

impl Tree {
    pub proof fn lemma_children_in(self, n: NodeId)
        requires
            self.wf(),
            self.has(n),
        ensures
            self.all_in(self.children(n)),
            self.all_in(self.attributes(n)),
    {
        assert forall|i: int| 0 <= i < self.children(n).len() implies self.has(
            #[trigger] self.children(n)[i],
        ) by {
            assert(self.has(self.nodes[n.0 as int].children[i]));
        }
        assert forall|i: int| 0 <= i < self.attributes(n).len() implies self.has(
            #[trigger] self.attributes(n)[i],
        ) by {
            assert(self.has(self.nodes[n.0 as int].attributes[i]));
        }
    }
}

} // verus!
