//! How the nodes of a document that is read lie in its arena: each before
//! its attributes, those before its children, and all in document order.

use crate::text::{lemma_span, trim_end_of, Class};
use crate::tree::xml::{
    attributes_of, begins_declaration, close_from, finished, first_word, lemma_close_from,
    local_name, opened, past_tag, read_from, tagged, text_end, unread, Reading,
};
use crate::tree::{bare_node, place_in, NodeId, NodeKind, NodeModel, Tree};
use vstd::prelude::*;

verus! {

impl Tree {
    /// Where child `i` of a node lies, given where nodes end: behind the
    /// attributes, or behind the child before it.
    pub open spec fn begin(self, ends: Seq<int>, p: int, i: int) -> int {
        if i <= 0 {
            p + 1 + self.nodes[p].attributes.len()
        } else {
            ends[self.nodes[p].children[i - 1].0 as int]
        }
    }

    /// Whether attribute `i` of a node lies behind those before it.
    pub open spec fn attribute_at(self, p: int, i: int) -> bool {
        &&& self.nodes[p].attributes[i].0 == p + 1 + i
        &&& self.nodes[p + 1 + i].kind == NodeKind::Attribute
        &&& self.nodes[p + 1 + i].parent == Some(NodeId(p as usize))
    }

    /// Whether child `i` of a node lies where the one before it ends.
    pub open spec fn child_at(self, ends: Seq<int>, p: int, i: int) -> bool {
        let child = self.nodes[p].children[i];
        &&& child.0 == self.begin(ends, p, i)
        &&& p < child.0 < self.nodes.len()
        &&& self.node(child).kind == NodeKind::Element
        &&& self.parent(child) == Some(NodeId(p as usize))
    }

    /// Whether a node, its attributes and what is below it lie side by side
    /// from `p` up to where the node ends.
    pub open spec fn laid_at(self, ends: Seq<int>, p: int) -> bool {
        let node = self.nodes[p];
        &&& p < ends[p] <= self.nodes.len()
        &&& node.kind == NodeKind::Attribute ==> node.children.len() == 0
            && node.attributes.len() == 0
        &&& p + node.attributes.len() < self.nodes.len()
        &&& forall|i: int| 0 <= i < node.attributes.len() ==> #[trigger] self.attribute_at(p, i)
        &&& forall|i: int| 0 <= i < node.children.len() ==> #[trigger] self.child_at(ends, p, i)
        &&& ends[p] == self.begin(ends, p, node.children.len() as int)
    }

    pub open spec fn laid(self, ends: Seq<int>) -> bool {
        &&& self.nodes.len() <= usize::MAX
        &&& ends.len() == self.nodes.len()
        &&& forall|p: int| 0 <= p < self.nodes.len() ==> #[trigger] self.laid_at(ends, p)
    }

    /// Whether all hangs together under the first node.
    pub open spec fn rooted_first(self, ends: Seq<int>) -> bool {
        &&& self.nodes.len() > 0
        &&& ends[0] == self.nodes.len()
        &&& self.nodes[0].kind == NodeKind::Element
        &&& self.nodes[0].parent is None
    }

    pub open spec fn only_first_is_free(self) -> bool {
        forall|k: int| 0 < k < self.nodes.len() ==> (#[trigger] self.nodes[k]).parent is Some
    }
}

// ---------------------------------------------------------------------------
// Reading keeps the layout
// ---------------------------------------------------------------------------

/// What holds of a document at every moment while it is read: an element
/// that is open ends where the arena does.
spec fn laid_reading(r: Reading, ends: Seq<int>) -> bool {
    &&& r.tree.laid(ends)
    &&& r.tree.order.len() == 0
    &&& r.tree.only_first_is_free()
    &&& r.root is None ==> r.tree.nodes.len() == 0 && r.open.len() == 0
    &&& r.root is Some ==> r.root == Some(NodeId(0)) && r.tree.rooted_first(ends)
    &&& r.open.len() > 0 ==> r.open[0] == NodeId(0)
    &&& forall|a: int|
        0 <= a < r.open.len() ==> (#[trigger] r.open[a]).0 < r.tree.nodes.len()
            && ends[r.open[a].0 as int] == r.tree.nodes.len() && r.tree.node(r.open[a]).kind
            == NodeKind::Element
    &&& forall|a: int|
        0 < a < r.open.len() ==> r.tree.parent(#[trigger] r.open[a]) == Some(r.open[a - 1])
            && r.tree.children(r.open[a - 1]).len() > 0 && r.tree.children(r.open[a - 1]).last()
            == r.open[a]
    &&& forall|a: int, b: int|
        0 <= a < b < r.open.len() ==> (#[trigger] r.open[a]).0 < (#[trigger] r.open[b]).0
    &&& forall|p: int, i: int|
        0 <= p < r.tree.nodes.len() && 0 <= i < r.tree.nodes[p].children.len() - 1
            ==> !r.open.contains(#[trigger] r.tree.nodes[p].children[i])
}

/// The names under which nodes are numbered one after another.
pub open spec fn numbered(from: int, n: nat) -> Seq<NodeId> {
    Seq::new(n, |i: int| NodeId((from + i) as usize))
}

spec fn is_attribute_of(node: NodeModel, id: NodeId) -> bool {
    &&& node.kind == NodeKind::Attribute
    &&& node.parent == Some(id)
    &&& node.children.len() == 0
    &&& node.attributes.len() == 0
}

proof fn lemma_with_attributes(t: Tree, id: NodeId, list: Seq<(Seq<char>, Seq<char>)>)
    requires
        id.0 + 1 == t.nodes.len(),
        t.nodes[id.0 as int].attributes.len() == 0,
        t.nodes.len() + list.len() <= usize::MAX,
    ensures
        ({
            let u = t.with_attributes(id, list);
            &&& u.nodes.len() == t.nodes.len() + list.len()
            &&& u.order == t.order
            &&& forall|j: int| 0 <= j < id.0 ==> #[trigger] u.nodes[j] == t.nodes[j]
            &&& u.nodes[id.0 as int] == (NodeModel {
                attributes: numbered(id.0 + 1, list.len()),
                ..t.nodes[id.0 as int]
            })
            &&& forall|j: int|
                id.0 < j < u.nodes.len() ==> is_attribute_of(#[trigger] u.nodes[j], id)
        }),
    decreases list.len(),
{
    let u = t.with_attributes(id, list);
    if list.len() == 0 {
        assert(t.nodes[id.0 as int].attributes =~= numbered(id.0 + 1, 0));
    } else {
        let d = list.drop_last();
        lemma_with_attributes(t, id, d);
        let v = t.with_attributes(id, d);
        assert(numbered(id.0 + 1, list.len()) =~= numbered(id.0 + 1, d.len()).push(
            NodeId(v.nodes.len() as usize),
        ));
    }
}

/// How many nodes a tag adds.
proof fn lemma_grows(t: Tree, id: NodeId, list: Seq<(Seq<char>, Seq<char>)>)
    requires
        t.has(id),
    ensures
        t.with_attributes(id, list).nodes.len() == t.nodes.len() + list.len(),
    decreases list.len(),
{
    if list.len() > 0 {
        lemma_grows(t, id, list.drop_last());
    }
}

proof fn lemma_tag_grows(r: Reading, s: Seq<char>, i: int, end: int)
    requires
        r.tree.all_in(r.open),
    ensures
        tagged(r, s, i, end) matches Ok(next) ==> next.tree.nodes.len() >= r.tree.nodes.len()
            && next.tree.all_in(next.open),
{
    let inner = s.subrange(i + 1, end);
    if let Ok(next) = tagged(r, s, i, end) {
        if !(inner.len() > 0 && inner[0] == '/') {
            let body = trim_end_of(inner, '/');
            let id = NodeId(r.tree.nodes.len() as usize);
            let grown = r.tree.grown(
                bare_node(NodeKind::Element, local_name(first_word(body)), ""@),
            );
            lemma_grows(grown, id, attributes_of(body));
            if r.open.len() > 0 {
                assert(r.tree.has(r.open[r.open.len() - 1]));
            }
            let bare = grown.with_attributes(id, attributes_of(body));
            assert(next.tree.nodes.len() == bare.nodes.len());
        }
        assert forall|a: int| 0 <= a < next.open.len() implies next.tree.has(
            #[trigger] next.open[a],
        ) by {
            if a < r.open.len() {
                assert(next.open[a] == r.open[a]);
                assert(r.tree.has(r.open[a]));
            }
        }
    }
}

proof fn lemma_reading_grows(r: Reading, s: Seq<char>, i: int)
    requires
        r.tree.all_in(r.open),
    ensures
        read_from(r, s, i) matches Ok(f) ==> f.tree.nodes.len() >= r.tree.nodes.len(),
    decreases s.len() - i,
{
    if 0 <= i < s.len() {
        if s[i] != '<' {
            lemma_reading_grows(r, s, i + 1);
        } else if let Some(end) = close_from(s, i, None) {
            lemma_close_from(s, i, None);
            lemma_span(s, end + 1, Class::Not('<'));
            if r.root is None && begins_declaration(s, i) {
                lemma_reading_grows(r, s, end + 1);
            } else if let Ok(next) = tagged(r, s, i, end) {
                lemma_tag_grows(r, s, i, end);
                lemma_reading_grows(next, s, past_tag(s, i, end));
            }
        }
    }
}

/// Where nodes end once an element is added that has `n` nodes with its
/// attributes.
spec fn ends_after(r: Reading, ends: Seq<int>, n: nat) -> Seq<int> {
    let len = r.tree.nodes.len();
    Seq::new(
        len + n,
        |j: int|
            if j == len || r.open.contains(NodeId(j as usize)) {
                (len + n) as int
            } else if j < len {
                ends[j]
            } else {
                j + 1
            },
    )
}

/// What a start tag makes of the nodes.
spec fn is_opened(r: Reading, u: Tree, n: nat) -> bool {
    let len = r.tree.nodes.len();
    let id = NodeId(len as usize);
    &&& n >= 1
    &&& u.order == r.tree.order
    &&& u.nodes.len() == len + n
    &&& len + n <= usize::MAX
    &&& forall|j: int|
        0 <= j < len ==> #[trigger] u.nodes[j] == (if r.open.len() > 0 && j == r.open.last().0 {
            NodeModel { children: r.tree.nodes[j].children.push(id), ..r.tree.nodes[j] }
        } else {
            r.tree.nodes[j]
        })
    &&& u.nodes[len as int].kind == NodeKind::Element
    &&& u.nodes[len as int].children.len() == 0
    &&& u.nodes[len as int].attributes == numbered(len as int + 1, (n - 1) as nat)
    &&& u.nodes[len as int].parent == if r.open.len() == 0 {
        None
    } else {
        Some(r.open.last())
    }
    &&& forall|j: int| len < j < u.nodes.len() ==> is_attribute_of(#[trigger] u.nodes[j], id)
}

proof fn lemma_opened_laid(r: Reading, ends: Seq<int>, u: Tree, n: nat)
    requires
        laid_reading(r, ends),
        is_opened(r, u, n),
        r.open.len() > 0 || r.root is None,
    ensures
        u.laid(ends_after(r, ends, n)),
{
    let t = r.tree;
    let len = t.nodes.len() as int;
    let id = NodeId(len as usize);
    let next = ends_after(r, ends, n);
    let size = u.nodes.len() as int;
    assert forall|a: int| 0 <= a < r.open.len() implies next[(#[trigger] r.open[a]).0 as int]
        == size by {
        assert(NodeId(r.open[a].0 as int as usize) == r.open[a]);
        assert(r.open.contains(r.open[a]));
    }
    assert forall|p: int| 0 <= p < size implies #[trigger] u.laid_at(next, p) by {
        if p > len {
            assert(is_attribute_of(u.nodes[p], id));
            assert(!r.open.contains(NodeId(p as usize))) by {
                if r.open.contains(NodeId(p as usize)) {
                    let a = choose|a: int|
                        0 <= a < r.open.len() && r.open[a] == NodeId(p as usize);
                    assert(r.open[a].0 < t.nodes.len());
                }
            }
        } else if p == len {
            assert forall|i: int|
                0 <= i < u.nodes[p].attributes.len() implies #[trigger] u.attribute_at(p, i) by {
                assert(is_attribute_of(u.nodes[p + 1 + i], id));
            }
        } else {
            lemma_old_laid(r, ends, u, n, p);
        }
    }
}

/// A child of a node that is not open is not open.
proof fn lemma_closed_children(r: Reading, ends: Seq<int>, p: int, i: int)
    requires
        laid_reading(r, ends),
        0 <= p < r.tree.nodes.len(),
        0 <= i < r.tree.nodes[p].children.len(),
        r.open.contains(r.tree.nodes[p].children[i]),
    ensures
        exists|a: int|
            0 <= a < r.open.len() - 1 && #[trigger] r.open[a] == NodeId(p as usize)
                && r.tree.nodes[p].children.last() == r.open[a + 1] && r.open[a + 1]
                == r.tree.nodes[p].children[i],
{
    let c = r.tree.nodes[p].children[i];
    assert(r.tree.laid_at(ends, p));
    assert(r.tree.child_at(ends, p, i));
    assert(r.tree.parent(c) == Some(NodeId(p as usize)));
    let a = choose|a: int| 0 <= a < r.open.len() && r.open[a] == c;
    assert(r.open[a].0 < r.tree.nodes.len());
    if a == 0 {
        assert(r.tree.nodes[0].parent is None);
    }
    assert(r.tree.parent(r.open[a]) == Some(r.open[a - 1]));
    assert(r.open[a - 1] == NodeId(p as usize));
}

#[verifier::rlimit(40)]
proof fn lemma_old_laid(r: Reading, ends: Seq<int>, u: Tree, n: nat, p: int)
    requires
        laid_reading(r, ends),
        is_opened(r, u, n),
        r.open.len() > 0 || r.root is None,
        0 <= p < r.tree.nodes.len(),
    ensures
        u.laid_at(ends_after(r, ends, n), p),
{
    let t = r.tree;
    let len = t.nodes.len() as int;
    let id = NodeId(len as usize);
    let next = ends_after(r, ends, n);
    let size = u.nodes.len() as int;
    let old = t.nodes[p];
    let node = u.nodes[p];
    let me = NodeId(p as usize);
    let c = old.children.len() as int;
    assert(t.laid_at(ends, p));
    assert forall|i: int| 0 <= i < node.attributes.len() implies #[trigger] u.attribute_at(
        p,
        i,
    ) by {
        assert(t.attribute_at(p, i));
        assert(u.nodes[p + 1 + i].kind == t.nodes[p + 1 + i].kind);
        assert(u.nodes[p + 1 + i].parent == t.nodes[p + 1 + i].parent);
    }
    // Children that are not the last end where they did.
    assert forall|i: int| 0 <= i < c - 1 implies next[(#[trigger] old.children[i]).0 as int]
        == ends[old.children[i].0 as int] by {
        assert(t.child_at(ends, p, i));
        assert(!r.open.contains(t.nodes[p].children[i]));
        assert(NodeId(old.children[i].0 as int as usize) == old.children[i]);
    }
    assert forall|i: int| 0 <= i < c implies u.begin(next, p, i) == t.begin(ends, p, i) by {
        if i > 0 {
            assert(node.children[i - 1] == old.children[i - 1]);
            assert(next[old.children[i - 1].0 as int] == ends[old.children[i - 1].0 as int]);
        }
    }
    assert forall|i: int| 0 <= i < c implies #[trigger] u.child_at(next, p, i) by {
        assert(t.child_at(ends, p, i));
        assert(node.children[i] == old.children[i]);
        assert(u.begin(next, p, i) == t.begin(ends, p, i));
        let k = old.children[i].0 as int;
        assert(u.nodes[k].kind == t.nodes[k].kind);
        assert(u.nodes[k].parent == t.nodes[k].parent);
    }
    if r.open.len() > 0 && me == r.open.last() {
        assert(r.open.contains(me));
        assert(ends[p] == len);
        assert(next[p] == size);
        assert(node.children == old.children.push(id));
        assert(node.children[c] == id);
        // The child before the new one is closed.
        if c > 0 {
            assert(t.child_at(ends, p, c - 1));
            assert(!r.open.contains(old.children[c - 1])) by {
                if r.open.contains(old.children[c - 1]) {
                    lemma_closed_children(r, ends, p, c - 1);
                    let a = choose|a: int|
                        0 <= a < r.open.len() - 1 && #[trigger] r.open[a] == me
                            && r.tree.nodes[p].children.last() == r.open[a + 1] && r.open[a + 1]
                            == r.tree.nodes[p].children[c - 1];
                    assert(r.open[a].0 < r.open[r.open.len() - 1].0);
                }
            }
            assert(NodeId(old.children[c - 1].0 as int as usize) == old.children[c - 1]);
            assert(old.children[c - 1].0 < len);
            assert(node.children[c - 1] == old.children[c - 1]);
            assert(u.begin(next, p, c) == ends[old.children[c - 1].0 as int]);
        }
        assert(u.begin(next, p, c) == len);
        assert(u.begin(next, p, c + 1) == next[id.0 as int]);
        assert(u.parent(id) == Some(me));
        assert(r.tree.node(r.open[r.open.len() - 1]).kind == NodeKind::Element);
        assert(node.kind == NodeKind::Element);
        assert(id.0 == len);
        assert(u.child_at(next, p, c));
        assert(u.laid_at(next, p));
    } else {
        assert(node == old);
        if r.open.contains(me) {
            let a = choose|a: int| 0 <= a < r.open.len() && r.open[a] == me;
            assert(a + 1 < r.open.len());
            assert(r.tree.parent(r.open[a + 1]) == Some(r.open[a + 1 - 1]));
            assert(old.children.last() == r.open[a + 1]);
            assert(r.open.contains(r.open[a + 1]));
            assert(NodeId(r.open[a + 1].0 as int as usize) == r.open[a + 1]);
            assert(next[p] == size);
            assert(u.begin(next, p, c) == size);
            assert(u.laid_at(next, p));
        } else {
            assert(next[p] == ends[p]);
            if c > 0 {
                assert(t.child_at(ends, p, c - 1));
                if r.open.contains(old.children[c - 1]) {
                    lemma_closed_children(r, ends, p, c - 1);
                }
                assert(NodeId(old.children[c - 1].0 as int as usize) == old.children[c - 1]);
                assert(old.children[c - 1].0 < len);
            }
            assert(u.begin(next, p, c) == t.begin(ends, p, c));
            assert(u.laid_at(next, p));
        }
    }
}

/// The tree of a reading after a start tag.
proof fn lemma_opened_nodes(r: Reading, inner: Seq<char>, text: Seq<char>, next: Reading) -> (n: nat)
    requires
        opened(r, inner, text) == Ok::<Reading, Seq<char>>(next),
        r.tree.all_in(r.open),
        next.tree.nodes.len() <= usize::MAX,
    ensures
        is_opened(r, next.tree, n),
{
    let body = trim_end_of(inner, '/');
    let len = r.tree.nodes.len();
    let id = NodeId(len as usize);
    let list = attributes_of(body);
    let grown = r.tree.grown(bare_node(NodeKind::Element, local_name(first_word(body)), ""@));
    let bare = grown.with_attributes(id, list);
    lemma_grows(grown, id, list);
    if r.open.len() > 0 {
        assert(r.tree.has(r.open[r.open.len() - 1]));
    }
    assert(next.tree.nodes.len() == bare.nodes.len());
    lemma_with_attributes(grown, id, list);
    let n = list.len() + 1;
    assert forall|j: int| len < j < next.tree.nodes.len() implies is_attribute_of(
        #[trigger] next.tree.nodes[j],
        id,
    ) by {
        assert(is_attribute_of(bare.nodes[j], id));
    }
    assert forall|j: int| 0 <= j < len implies #[trigger] next.tree.nodes[j] == (if r.open.len() > 0
        && j == r.open.last().0 {
        NodeModel { children: r.tree.nodes[j].children.push(id), ..r.tree.nodes[j] }
    } else {
        r.tree.nodes[j]
    }) by {
        assert(bare.nodes[j] == grown.nodes[j]);
    }
    n
}

#[verifier::rlimit(60)]
#[verifier::spinoff_prover]
proof fn lemma_opened_reading(
    r: Reading,
    ends: Seq<int>,
    inner: Seq<char>,
    text: Seq<char>,
    next: Reading,
) -> (after: Seq<int>)
    requires
        laid_reading(r, ends),
        opened(r, inner, text) == Ok::<Reading, Seq<char>>(next),
        next.tree.nodes.len() <= usize::MAX,
    ensures
        laid_reading(next, after),
{
    let t = r.tree;
    let u = next.tree;
    let len = t.nodes.len() as int;
    let id = NodeId(len as usize);
    assert(t.all_in(r.open));
    let n = lemma_opened_nodes(r, inner, text, next);
    let after = ends_after(r, ends, n);
    lemma_opened_laid(r, ends, u, n);
    let size = u.nodes.len() as int;
    assert forall|a: int| 0 <= a < r.open.len() implies after[(#[trigger] r.open[a]).0 as int]
        == size by {
        assert(NodeId(r.open[a].0 as int as usize) == r.open[a]);
        assert(r.open.contains(r.open[a]));
    }
    assert(after[len] == size);
    assert(u.only_first_is_free()) by {
        assert forall|k: int| 0 < k < size implies (#[trigger] u.nodes[k]).parent is Some by {
            if k < len {
                assert(t.nodes[k].parent is Some);
            } else if k > len {
                assert(is_attribute_of(u.nodes[k], id));
            }
        }
    }
    if len > 0 {
        assert(r.open[0] == NodeId(0));
        assert(after[r.open[0].0 as int] == size);
        assert(u.nodes[0].kind == t.nodes[0].kind);
    }
    assert forall|a: int| 0 <= a < next.open.len() implies (#[trigger] next.open[a]).0 < size
        && after[next.open[a].0 as int] == size && u.node(next.open[a]).kind
        == NodeKind::Element by {
        if a < r.open.len() {
            assert(next.open[a] == r.open[a]);
            assert(u.nodes[r.open[a].0 as int].kind == t.nodes[r.open[a].0 as int].kind);
        }
    }
    assert forall|a: int| 0 < a < next.open.len() implies u.parent(#[trigger] next.open[a]) == Some(
        next.open[a - 1],
    ) && u.children(next.open[a - 1]).len() > 0 && u.children(next.open[a - 1]).last()
        == next.open[a] by {
        if a < r.open.len() {
            assert(next.open[a] == r.open[a] && next.open[a - 1] == r.open[a - 1]);
            assert(t.parent(r.open[a]) == Some(r.open[a - 1]));
            assert(r.open[a - 1].0 < r.open[r.open.len() - 1].0);
            assert(u.nodes[r.open[a].0 as int].parent == t.nodes[r.open[a].0 as int].parent);
            assert(u.nodes[r.open[a - 1].0 as int] == t.nodes[r.open[a - 1].0 as int]);
        } else {
            assert(next.open[a] == id);
            assert(next.open[a - 1] == r.open[r.open.len() - 1]);
        }
    }
    assert forall|a: int, b: int| 0 <= a < b < next.open.len() implies (#[trigger] next.open[a]).0 < (
    #[trigger] next.open[b]).0 by {
        assert(next.open[a] == r.open[a]);
        if b < r.open.len() {
            assert(next.open[b] == r.open[b]);
        }
    }
    assert forall|p: int, i: int|
        0 <= p < size && 0 <= i < u.nodes[p].children.len() - 1 implies !next.open.contains(
        #[trigger] u.nodes[p].children[i],
    ) by {
        if p > len {
            assert(is_attribute_of(u.nodes[p], id));
        } else if p < len {
            let c = t.nodes[p].children.len() as int;
            let x = u.nodes[p].children[i];
            assert(t.laid_at(ends, p));
            assert(t.child_at(ends, p, i));
            assert(x == t.nodes[p].children[i]);
            if next.open.contains(x) {
                let a = choose|a: int| 0 <= a < next.open.len() && next.open[a] == x;
                assert(a < r.open.len());
                assert(r.open[a] == x);
                assert(r.open.contains(x));
                if i == c - 1 {
                    lemma_closed_children(r, ends, p, i);
                    let b = choose|b: int|
                        0 <= b < r.open.len() - 1 && #[trigger] r.open[b] == NodeId(p as usize)
                            && t.nodes[p].children.last() == r.open[b + 1] && r.open[b + 1]
                            == t.nodes[p].children[i];
                    assert(r.open[b].0 < r.open[r.open.len() - 1].0);
                    assert(false);
                }
            }
        }
    }
    after
}

proof fn lemma_tag_laid(
    r: Reading,
    ends: Seq<int>,
    s: Seq<char>,
    i: int,
    end: int,
    next: Reading,
) -> (after: Seq<int>)
    requires
        laid_reading(r, ends),
        tagged(r, s, i, end) == Ok::<Reading, Seq<char>>(next),
        next.tree.nodes.len() <= usize::MAX,
    ensures
        laid_reading(next, after),
{
    let inner = s.subrange(i + 1, end);
    if inner.len() > 0 && inner[0] == '/' {
        assert(next.open == r.open.drop_last());
        assert forall|a: int| 0 <= a < next.open.len() implies #[trigger] next.open[a]
            == r.open[a] by {}
        assert forall|p: int, i: int|
            0 <= p < next.tree.nodes.len() && 0 <= i < next.tree.nodes[p].children.len()
                - 1 implies !next.open.contains(#[trigger] next.tree.nodes[p].children[i]) by {
            let x = r.tree.nodes[p].children[i];
            if next.open.contains(x) {
                let a = choose|a: int| 0 <= a < next.open.len() && next.open[a] == x;
                assert(r.open[a] == x);
                assert(r.open.contains(x));
            }
        }
        ends
    } else {
        lemma_opened_reading(
            r,
            ends,
            inner,
            s.subrange(end + 1, text_end(s, end + 1)),
            next,
        )
    }
}

proof fn lemma_read_laid(r: Reading, ends: Seq<int>, s: Seq<char>, i: int) -> (after: Seq<int>)
    requires
        laid_reading(r, ends),
        read_from(r, s, i) matches Ok(f) && f.tree.nodes.len() <= usize::MAX,
    ensures
        laid_reading(read_from(r, s, i)->Ok_0, after),
    decreases s.len() - i,
{
    if 0 <= i < s.len() {
        if s[i] != '<' {
            lemma_read_laid(r, ends, s, i + 1)
        } else {
            let end = close_from(s, i, None)->0;
            lemma_close_from(s, i, None);
            lemma_span(s, end + 1, Class::Not('<'));
            if r.root is None && begins_declaration(s, i) {
                lemma_read_laid(r, ends, s, end + 1)
            } else {
                let next = tagged(r, s, i, end)->Ok_0;
                assert(r.tree.all_in(r.open));
                lemma_tag_grows(r, s, i, end);
                lemma_reading_grows(next, s, past_tag(s, i, end));
                let after = lemma_tag_laid(r, ends, s, i, end, next);
                lemma_read_laid(next, after, s, past_tag(s, i, end))
            }
        }
    } else {
        ends
    }
}

// ---------------------------------------------------------------------------
// What the layout means
// ---------------------------------------------------------------------------

impl Tree {
    /// A walk goes through the arena from a node to where it ends.
    pub proof fn lemma_visit_laid(self, ends: Seq<int>, p: int)
        requires
            self.wf(),
            self.laid(ends),
            0 <= p < self.nodes.len(),
        ensures
            self.visit(NodeId(p as usize), true) == numbered(p, (ends[p] - p) as nat),
        decreases self.height(NodeId(p as usize)), self.nodes[p].children.len() + 1,
    {
        let n = NodeId(p as usize);
        assert(self.laid_at(ends, p));
        self.lemma_below_laid(ends, p, 0);
        let a = self.attributes(n);
        assert(a =~= numbered(p + 1, a.len())) by {
            assert forall|i: int| 0 <= i < a.len() implies a[i] == numbered(p + 1, a.len())[i] by {
                assert(self.attribute_at(p, i));
            }
        }
        assert(self.visit(n, true) =~= numbered(p, (ends[p] - p) as nat));
    }

    pub proof fn lemma_below_laid(self, ends: Seq<int>, p: int, i: int)
        requires
            self.wf(),
            self.laid(ends),
            0 <= p < self.nodes.len(),
            0 <= i <= self.nodes[p].children.len(),
        ensures
            self.begin(ends, p, i) <= ends[p],
            self.below(NodeId(p as usize), i, true) == numbered(
                self.begin(ends, p, i),
                (ends[p] - self.begin(ends, p, i)) as nat,
            ),
        decreases self.height(NodeId(p as usize)), self.nodes[p].children.len() - i,
    {
        let n = NodeId(p as usize);
        assert(self.laid_at(ends, p));
        if i < self.nodes[p].children.len() {
            let child = self.nodes[p].children[i];
            assert(self.child_at(ends, p, i));
            self.lemma_ranking();
            let c = child.0 as int;
            assert(NodeId(c as usize) == child);
            self.lemma_visit_laid(ends, c);
            self.lemma_below_laid(ends, p, i + 1);
            assert(self.laid_at(ends, c));
            assert(self.begin(ends, p, i + 1) == ends[c]);
            assert(self.below(n, i, true) =~= numbered(
                self.begin(ends, p, i),
                (ends[p] - self.begin(ends, p, i)) as nat,
            ));
        } else {
            assert(self.below(n, i, true) =~= numbered(self.begin(ends, p, i), 0));
        }
    }

    /// Where the nodes of a document that was read end.
    pub open spec fn is_layout(self, ends: Seq<int>) -> bool {
        self.laid(ends) && self.rooted_first(ends) && self.only_first_is_free()
    }

    /// Whether a tree is one that a document was read into, and nothing was
    /// done to since: its root is its first node, the place of a node in the
    /// document is its place in the arena, and every node but the root
    /// stands once among the children or the attributes of its parent.
    pub open spec fn as_read(self) -> bool {
        &&& self.wf()
        &&& self.upright()
        &&& self.root == Some(NodeId(0))
        &&& exists|ends: Seq<int>| #[trigger] self.is_layout(ends)
        &&& forall|n: NodeId| self.has(n) ==> #[trigger] self.document_order(n) == n.0
    }

    proof fn lemma_children_ascend(self, ends: Seq<int>, p: int, i: int, j: int)
        requires
            self.laid(ends),
            0 <= p < self.nodes.len(),
            0 <= i < j < self.nodes[p].children.len(),
        ensures
            ends[self.nodes[p].children[i].0 as int] <= self.nodes[p].children[j].0,
            self.nodes[p].children[i].0 < self.nodes[p].children[j].0,
        decreases j - i,
    {
        assert(self.laid_at(ends, p));
        assert(self.child_at(ends, p, j));
        assert(self.child_at(ends, p, j - 1));
        assert(self.child_at(ends, p, i));
        assert(self.laid_at(ends, self.nodes[p].children[j - 1].0 as int));
        assert(self.laid_at(ends, self.nodes[p].children[i].0 as int));
        if i < j - 1 {
            self.lemma_children_ascend(ends, p, i, j - 1);
        }
    }

    proof fn lemma_laid_upright(self, ends: Seq<int>)
        requires
            self.wf(),
            self.laid(ends),
        ensures
            self.upright(),
    {
        assert forall|p: int, i: int|
            0 <= p < self.nodes.len() && 0 <= i < self.nodes[p].children.len() implies self.has(
            #[trigger] self.nodes[p].children[i],
        ) && self.parent(self.nodes[p].children[i]) == Some(NodeId(p as usize)) by {
            assert(self.laid_at(ends, p));
            assert(self.child_at(ends, p, i));
        }
        assert forall|p: int, i: int, j: int|
            0 <= p < self.nodes.len() && 0 <= i < j < self.nodes[p].children.len() implies (
        #[trigger] self.nodes[p].children[i]) != (#[trigger] self.nodes[p].children[j]) by {
            self.lemma_children_ascend(ends, p, i, j);
        }
    }

    pub proof fn lemma_numbered_place(n: nat, k: int)
        requires
            0 <= k < n <= usize::MAX,
        ensures
            place_in(numbered(0, n), NodeId(k as usize)) == k,
        decreases n,
    {
        let s = numbered(0, n);
        assert(s.drop_last() =~= numbered(0, (n - 1) as nat));
        if k < n - 1 {
            Self::lemma_numbered_place((n - 1) as nat, k);
        }
    }

    /// Whether a node stands once among the children and the attributes of
    /// another.
    pub open spec fn stands_once(self, p: NodeId, n: NodeId) -> bool {
        &&& self.children(p).no_duplicates()
        &&& self.attributes(p).no_duplicates()
        &&& self.children(p).contains(n) != self.attributes(p).contains(n)
    }
}

/// A document that is read has its first element for its root, and its nodes
/// in document order. The root alone has no parent, every other node stands
/// once among what its parent holds, and what a node holds has it for its
/// parent. An attribute holds nothing.
pub proof fn law_documents_are_laid_out(s: Seq<char>, loose: bool, t: Tree)
    requires
        finished(read_from(unread(loose), s, 0)) == Ok::<Tree, Seq<char>>(t),
        t.wf(),
    ensures
        t.as_read(),
        t.root == Some(NodeId(0)),
        forall|n: NodeId| t.has(n) ==> #[trigger] t.document_order(n) == n.0,
        forall|n: NodeId| t.has(n) ==> (#[trigger] t.parent(n) is None <==> n == NodeId(0)),
        forall|n: NodeId|
            t.has(n) && n != NodeId(0) ==> t.stands_once(#[trigger] t.parent(n)->0, n),
        forall|p: NodeId, i: int|
            t.has(p) && 0 <= i < t.children(p).len() ==> t.parent(#[trigger] t.children(p)[i])
                == Some(p),
        forall|p: NodeId, i: int|
            t.has(p) && 0 <= i < t.attributes(p).len() ==> t.parent(#[trigger] t.attributes(p)[i])
                == Some(p) && t.children(t.attributes(p)[i]).len() == 0,
{
    let r = unread(loose);
    let none = Seq::<int>::empty();
    let f = read_from(r, s, 0)->Ok_0;
    let ends = lemma_read_laid(r, none, s, 0);
    let read = Tree { root: f.root, ..f.tree };
    assert(t == read.reindexed());
    assert(t.nodes == f.tree.nodes);
    assert forall|p: int| 0 <= p < t.nodes.len() implies #[trigger] t.laid_at(ends, p) by {
        assert(f.tree.laid_at(ends, p));
        assert forall|i: int| 0 <= i < t.nodes[p].attributes.len() implies #[trigger] t.attribute_at(
            p,
            i,
        ) by {
            assert(f.tree.attribute_at(p, i));
        }
        assert forall|i: int| 0 <= i < t.nodes[p].children.len() implies #[trigger] t.child_at(
            ends,
            p,
            i,
        ) by {
            assert(f.tree.child_at(ends, p, i));
        }
    }
    assert(t.laid(ends));
    assert(t.is_layout(ends));
    t.lemma_laid_upright(ends);
    t.lemma_visit_laid(ends, 0);
    let root = NodeId(0);
    assert(read.wf()) by {
        t.lemma_rerooted_wf(read.root, read.order);
    }
    read.lemma_visit_same(t, root, true);
    assert(t.visit(root, true) == numbered(0, t.nodes.len()));
    assert forall|n: NodeId| t.has(n) implies #[trigger] t.document_order(n) == n.0 by {
        Tree::lemma_numbered_place(t.nodes.len(), n.0 as int);
        assert(NodeId(n.0 as int as usize) == n);
    }
    assert forall|n: NodeId| t.has(n) implies (#[trigger] t.parent(n) is None <==> n
        == NodeId(0)) by {
        if n.0 > 0 {
            assert(t.nodes[n.0 as int].parent is Some);
        }
    }
    assert forall|p: NodeId, i: int| t.has(p) && 0 <= i < t.children(p).len() implies t.parent(
        #[trigger] t.children(p)[i],
    ) == Some(p) by {
        assert(t.laid_at(ends, p.0 as int));
        assert(t.child_at(ends, p.0 as int, i));
    }
    assert forall|p: NodeId, i: int| t.has(p) && 0 <= i < t.attributes(p).len() implies t.parent(
        #[trigger] t.attributes(p)[i],
    ) == Some(p) && t.children(t.attributes(p)[i]).len() == 0 by {
        assert(t.laid_at(ends, p.0 as int));
        assert(t.attribute_at(p.0 as int, i));
        assert(t.laid_at(ends, p.0 + 1 + i));
    }
    assert forall|n: NodeId| t.has(n) && n != NodeId(0) implies t.stands_once(
        #[trigger] t.parent(n)->0,
        n,
    ) by {
        let p = t.parent(n)->0;
        assert(t.nodes[n.0 as int].parent is Some);
        t.lemma_parent(n);
        let k = p.0 as int;
        assert(t.laid_at(ends, k));
        assert forall|i: int, j: int| 0 <= i < j < t.attributes(p).len() implies t.attributes(p)[i]
            != t.attributes(p)[j] by {
            assert(t.attribute_at(k, i));
            assert(t.attribute_at(k, j));
        }
        assert forall|i: int, j: int| 0 <= i < j < t.children(p).len() implies t.children(p)[i]
            != t.children(p)[j] by {
            t.lemma_children_ascend(ends, k, i, j);
        }
        if t.children(p).contains(n) && t.attributes(p).contains(n) {
            let i = choose|i: int| 0 <= i < t.children(p).len() && t.children(p)[i] == n;
            let j = choose|j: int| 0 <= j < t.attributes(p).len() && t.attributes(p)[j] == n;
            assert(t.child_at(ends, k, i));
            assert(t.attribute_at(k, j));
        }
    }
}

/// The value of an attribute is its string-value: it holds nothing else.
pub proof fn law_attribute_is_its_own_text(t: Tree, p: NodeId, i: int)
    requires
        t.as_read(),
        t.has(p),
        0 <= i < t.attributes(p).len(),
    ensures
        t.string_value(t.attributes(p)[i]) == t.value(t.attributes(p)[i]),
{
    let ends = choose|ends: Seq<int>| #[trigger] t.is_layout(ends);
    let a = t.attributes(p)[i];
    assert(t.laid_at(ends, p.0 as int));
    assert(t.attribute_at(p.0 as int, i));
    assert(t.laid_at(ends, p.0 + 1 + i));
    assert(t.below(a, 0, false) =~= Seq::<NodeId>::empty());
    assert(t.descendants(a) =~= Seq::<NodeId>::empty());
    assert(t.string_value(a) =~= t.value(a));
}

} // verus!
