//! A document by its listing: every node once, each before what it holds.

use crate::eval::likeness::{alike, alike_at, apart, renamed};
use crate::tree::{place_in, NodeId, Tree};
use vstd::prelude::*;

verus! {

impl Tree {
    /// Whether what a node has for attributes is its own and holds nothing.
    pub open spec fn attributes_apart(self, p: NodeId) -> bool {
        &&& self.attributes(p).no_duplicates()
        &&& forall|i: int|
            0 <= i < self.attributes(p).len() ==> self.parent(#[trigger] self.attributes(p)[i])
                == Some(p) && self.children(self.attributes(p)[i]).len() == 0 && self.attributes(
                self.attributes(p)[i],
            ).len() == 0 && !self.children(p).contains(self.attributes(p)[i])
    }

    pub open spec fn all_apart(self) -> bool {
        forall|p: NodeId| #[trigger] self.has(p) ==> self.attributes_apart(p)
    }

    /// Whether a tree hangs together under its root as a document does, and
    /// its order is that of its shape.
    pub open spec fn hangs_together(self, root: NodeId) -> bool {
        &&& self.wf()
        &&& self.upright()
        &&& self.root == Some(root)
        &&& self.parent(root) is None
        &&& self.order == self.reindexed().order
        &&& self.all_apart()
    }

    // -----------------------------------------------------------------------
    // Everything is listed once
    // -----------------------------------------------------------------------

    proof fn lemma_higher(self, x: NodeId, a: NodeId)
        requires
            self.wf(),
            self.has(x),
            self.ancestors(x).contains(a),
        ensures
            self.has(a),
            self.height(a) > self.height(x),
        decreases self.ranking().bound - self.height(x),
    {
        let p = self.parent(x)->0;
        self.lemma_parent(x);
        let up = self.ancestors(x);
        assert(up == seq![p] + self.ancestors(p));
        if a != p {
            let k = choose|k: int| 0 <= k < up.len() && up[k] == a;
            assert(self.ancestors(p)[k - 1] == a);
            self.lemma_higher(p, a);
        }
    }

    /// Whether a node is another or above it.
    pub open spec fn reaches(self, c: NodeId, x: NodeId) -> bool {
        x == c || self.ancestors(x).contains(c)
    }

    /// Of what one node has for children, one alone is another node or above
    /// it.
    proof fn lemma_one_way_up(self, x: NodeId, a: NodeId, b: NodeId, n: NodeId)
        requires
            self.wf(),
            self.has(x),
            self.reaches(a, x),
            self.reaches(b, x),
            self.has(a),
            self.has(b),
            self.parent(a) == Some(n),
            self.parent(b) == Some(n),
        ensures
            a == b,
        decreases self.ranking().bound - self.height(x),
    {
        self.lemma_parent(a);
        self.lemma_parent(b);
        self.lemma_parent(x);
        if a != b {
            if self.ancestors(x).contains(a) || self.ancestors(x).contains(b) {
                let p = self.parent(x)->0;
                let up = self.ancestors(x);
                assert(up == seq![p] + self.ancestors(p));
                if x == a || x == b {
                    let other = if x == a {
                        b
                    } else {
                        a
                    };
                    assert(p == n);
                    let k = choose|k: int| 0 <= k < up.len() && up[k] == other;
                    if k > 0 {
                        assert(self.ancestors(p)[k - 1] == other);
                        self.lemma_higher(p, other);
                    }
                } else {
                    let k = choose|k: int| 0 <= k < up.len() && up[k] == a;
                    if k > 0 {
                        assert(self.ancestors(p)[k - 1] == a);
                    }
                    let j = choose|j: int| 0 <= j < up.len() && up[j] == b;
                    if j > 0 {
                        assert(self.ancestors(p)[j - 1] == b);
                    }
                    self.lemma_one_way_up(p, a, b, n);
                }
            }
        }
    }

    /// A walk lists as many nodes as there are.
    pub proof fn lemma_size_listed(self, n: NodeId)
        requires
            self.wf(),
            self.has(n),
        ensures
            self.size(n) == self.visit(n, true).len(),
        decreases self.height(n), self.children(n).len() + 1,
    {
        self.lemma_size_below_listed(n, 0);
    }

    proof fn lemma_size_below_listed(self, n: NodeId, i: int)
        requires
            self.wf(),
            self.has(n),
            0 <= i,
        ensures
            self.size_below(n, i) == self.below(n, i, true).len(),
        decreases self.height(n), self.children(n).len() - i,
    {
        if i < self.children(n).len() {
            self.lemma_ranking();
            self.lemma_children_in(n);
            let child = self.children(n)[i];
            assert(self.nodes[n.0 as int].children[i] == child);
            assert(self.has(child));
            self.lemma_size_listed(child);
            self.lemma_size_below_listed(n, i + 1);
        }
    }

    /// What a walk lists is the node it starts from or below it.
    pub proof fn lemma_listed_below(self, n: NodeId, x: NodeId)
        requires
            self.wf(),
            self.upright(),
            self.has(n),
            self.all_apart(),
            self.visit(n, true).contains(x),
        ensures
            self.has(x),
            self.reaches(n, x),
        decreases self.height(n), self.children(n).len() + 1,
    {
        let s = self.visit(n, true);
        let a = self.attributes(n);
        let k = choose|k: int| 0 <= k < s.len() && s[k] == x;
        assert(self.attributes_apart(n));
        self.lemma_children_in(n);
        if 0 < k <= a.len() {
            assert(a[k - 1] == x);
            assert(self.has(a[k - 1]));
            assert(self.ancestors(x) == seq![n] + self.ancestors(n));
            assert(self.ancestors(x)[0] == n);
        } else if k > a.len() {
            assert(self.below(n, 0, true)[k - a.len() - 1] == x);
            assert(self.below(n, 0, true).contains(x));
            let j = self.lemma_listed_in(n, 0, x);
        }
    }

    /// What is below a node is listed with one of its children.
    proof fn lemma_listed_in(self, n: NodeId, i: int, x: NodeId) -> (j: int)
        requires
            self.wf(),
            self.upright(),
            self.has(n),
            self.all_apart(),
            0 <= i,
            self.below(n, i, true).contains(x),
        ensures
            i <= j < self.children(n).len(),
            self.has(x),
            self.reaches(self.children(n)[j], x),
            self.ancestors(x).contains(n),
        decreases self.height(n), self.children(n).len() - i,
    {
        let s = self.below(n, i, true);
        let k = choose|k: int| 0 <= k < s.len() && s[k] == x;
        self.lemma_children_in(n);
        self.lemma_ranking();
        let child = self.children(n)[i];
        assert(self.has(child));
        assert(self.nodes[n.0 as int].children[i] == child);
        let first = self.visit(child, true);
        if k < first.len() {
            assert(first[k] == x);
            assert(first.contains(x));
            self.lemma_listed_below(child, x);
            assert(self.parent(child) == Some(n));
            assert(self.ancestors(child) == seq![n] + self.ancestors(n));
            assert(self.ancestors(child)[0] == n);
            assert(self.ancestors(child).contains(n));
            if x != child {
                self.lemma_above_above(x, child, n);
            }
            i
        } else {
            assert(self.below(n, i + 1, true)[k - first.len()] == x);
            assert(self.below(n, i + 1, true).contains(x));
            self.lemma_listed_in(n, i + 1, x)
        }
    }

    pub proof fn lemma_listed_once(self, n: NodeId)
        requires
            self.wf(),
            self.upright(),
            self.has(n),
            self.all_apart(),
        ensures
            self.visit(n, true).no_duplicates(),
        decreases self.height(n), self.children(n).len() + 1,
    {
        let s = self.visit(n, true);
        let a = self.attributes(n);
        let rest = self.below(n, 0, true);
        assert(self.attributes_apart(n));
        self.lemma_children_in(n);
        self.lemma_ranking();
        self.lemma_below_once(n, 0);
        assert forall|i: int, j: int| 0 <= i < j < s.len() implies s[i] != s[j] by {
            if j <= a.len() {
                assert(s[j] == a[j - 1]);
                assert(self.parent(a[j - 1]) == Some(n));
                if i > 0 {
                    assert(s[i] == a[i - 1]);
                } else {
                    assert(self.has(a[j - 1]));
                    assert(self.nodes[n.0 as int].attributes[j - 1] == a[j - 1]);
                }
            } else {
                let x = s[j];
                assert(rest[j - a.len() - 1] == x);
                assert(rest.contains(x));
                let c = self.lemma_listed_in(n, 0, x);
                self.lemma_higher(x, n);
                if 0 < i <= a.len() {
                    assert(s[i] == a[i - 1]);
                    if s[i] == x {
                        assert(self.parent(a[i - 1]) == Some(n));
                        let child = self.children(n)[c];
                        assert(self.nodes[n.0 as int].children[c] == child);
                        if x == child {
                            assert(self.children(n).contains(x));
                        } else {
                            let up = self.ancestors(x);
                            assert(up == seq![n] + self.ancestors(n));
                            let k = choose|k: int| 0 <= k < up.len() && up[k] == child;
                            if k > 0 {
                                assert(self.ancestors(n)[k - 1] == child);
                                self.lemma_higher(n, child);
                            }
                        }
                        assert(false);
                    }
                } else if i > a.len() {
                    assert(rest[i - a.len() - 1] == s[i]);
                }
            }
        }
    }

    proof fn lemma_below_once(self, n: NodeId, i: int)
        requires
            self.wf(),
            self.upright(),
            self.has(n),
            self.all_apart(),
            0 <= i,
        ensures
            self.below(n, i, true).no_duplicates(),
        decreases self.height(n), self.children(n).len() - i,
    {
        if i < self.children(n).len() {
            self.lemma_children_in(n);
            self.lemma_ranking();
            let child = self.children(n)[i];
            assert(self.has(child));
            assert(self.nodes[n.0 as int].children[i] == child);
            self.lemma_listed_once(child);
            self.lemma_below_once(n, i + 1);
            let first = self.visit(child, true);
            let rest = self.below(n, i + 1, true);
            let s = self.below(n, i, true);
            assert forall|a: int, b: int| 0 <= a < b < s.len() implies s[a] != s[b] by {
                if a < first.len() && b >= first.len() {
                    assert(first[a] == s[a] && first.contains(s[a]));
                    assert(rest[b - first.len()] == s[b] && rest.contains(s[b]));
                    if s[a] == s[b] {
                        self.lemma_listed_below(child, s[a]);
                        let j = self.lemma_listed_in(n, i + 1, s[b]);
                        let other = self.children(n)[j];
                        assert(self.has(other));
                        assert(self.nodes[n.0 as int].children[j] == other);
                        assert(self.parent(child) == Some(n));
                        assert(self.parent(other) == Some(n));
                        self.lemma_one_way_up(s[a], child, other, n);
                    }
                } else if a < first.len() {
                    assert(first[a] == s[a] && first[b] == s[b]);
                } else {
                    assert(rest[a - first.len()] == s[a] && rest[b - first.len()] == s[b]);
                }
            }
        } else {
            assert(self.below(n, i, true) =~= Seq::<NodeId>::empty());
        }
    }

    proof fn lemma_place_once(s: Seq<NodeId>, k: int)
        requires
            s.no_duplicates(),
            0 <= k < s.len() <= usize::MAX,
        ensures
            place_in(s, s[k]) == k,
        decreases s.len(),
    {
        if k < s.len() - 1 {
            let d = s.drop_last();
            assert(s.last() != s[k]);
            assert(d.no_duplicates()) by {
                assert forall|i: int, j: int| 0 <= i < d.len() && 0 <= j < d.len() && i != j implies
                    d[i] != d[j] by {
                    assert(d[i] == s[i] && d[j] == s[j]);
                }
            }
            assert(d[k] == s[k]);
            Self::lemma_place_once(d, k);
        }
    }
}

// ---------------------------------------------------------------------------
// A copy goes by the listing of what it copies
// ---------------------------------------------------------------------------

/// Whether a list that begins at `a` has a node at `q`.
spec fn lies_at(v: Seq<NodeId>, a: int, q: int, x: NodeId) -> bool {
    a <= q < a + v.len() && v[q - a] == x
}

/// Whether node `k` of a copy is what the listing has there, and holds the
/// copies of what that holds.
spec fn paired(c: Tree, t: Tree, v: Seq<NodeId>, a: int, k: int) -> bool {
    let x = v[k - a];
    &&& a <= k < a + v.len()
    &&& c.nodes[k].name == t.name(x)
    &&& c.nodes[k].value == t.value(x)
    &&& c.nodes[k].children.len() == t.children(x).len()
    &&& c.nodes[k].attributes.len() == t.attributes(x).len()
    &&& forall|i: int|
        0 <= i < t.children(x).len() ==> lies_at(
            v,
            a,
            (#[trigger] c.nodes[k].children[i]).0 as int,
            t.children(x)[i],
        )
    &&& forall|i: int|
        0 <= i < t.attributes(x).len() ==> lies_at(
            v,
            a,
            (#[trigger] c.nodes[k].attributes[i]).0 as int,
            t.attributes(x)[i],
        )
}

proof fn lemma_paired_within(
    c: Tree,
    t: Tree,
    v: Seq<NodeId>,
    a: int,
    w: Seq<NodeId>,
    b: int,
    k: int,
)
    requires
        paired(c, t, v, a, k),
        b <= a,
        a + v.len() <= b + w.len(),
        w.subrange(a - b, a - b + v.len()) == v,
    ensures
        paired(c, t, w, b, k),
{
    let x = v[k - a];
    assert(w[k - b] == w.subrange(a - b, a - b + v.len())[k - a]);
    assert forall|i: int| 0 <= i < t.children(x).len() implies lies_at(
        w,
        b,
        (#[trigger] c.nodes[k].children[i]).0 as int,
        t.children(x)[i],
    ) by {
        let q = c.nodes[k].children[i].0 as int;
        assert(lies_at(v, a, q, t.children(x)[i]));
        assert(w[q - b] == w.subrange(a - b, a - b + v.len())[q - a]);
    }
    assert forall|i: int| 0 <= i < t.attributes(x).len() implies lies_at(
        w,
        b,
        (#[trigger] c.nodes[k].attributes[i]).0 as int,
        t.attributes(x)[i],
    ) by {
        let q = c.nodes[k].attributes[i].0 as int;
        assert(lies_at(v, a, q, t.attributes(x)[i]));
        assert(w[q - b] == w.subrange(a - b, a - b + v.len())[q - a]);
    }
}

impl Tree {
    proof fn lemma_paired(self, t: Tree, ends: Seq<int>, a: int, n: NodeId)
        requires
            self.wf(),
            self.laid(ends),
            t.wf(),
            t.upright(),
            t.has(n),
            t.all_apart(),
            0 <= a < self.nodes.len(),
            self.is_copy(NodeId(a as usize), t, n),
        ensures
            t.visit(n, true).len() == ends[a] - a,
            forall|k: int|
                a <= k < ends[a] ==> #[trigger] paired(self, t, t.visit(n, true), a, k),
        decreases t.height(n), t.children(n).len() + 1,
    {
        let id = NodeId(a as usize);
        let v = t.visit(n, true);
        let held = t.attributes(n);
        let rest = t.below(n, 0, true);
        let at = self.begin(ends, a, 0);
        assert(self.laid_at(ends, a));
        assert(t.attributes_apart(n));
        assert(v =~= seq![n] + held + rest);
        self.lemma_paired_below(t, ends, a, n, 0);
        self.lemma_below_laid(ends, a, 0);
        assert(at == a + 1 + held.len());
        assert(v.subrange(at - a, at - a + rest.len()) =~= rest);
        assert forall|k: int| a <= k < ends[a] implies #[trigger] paired(self, t, v, a, k) by {
            if k == a {
                assert(v[0] == n);
                assert forall|i: int| 0 <= i < t.children(n).len() implies lies_at(
                    v,
                    a,
                    (#[trigger] self.nodes[a].children[i]).0 as int,
                    t.children(n)[i],
                ) by {
                    let q = self.nodes[a].children[i].0 as int;
                    assert(lies_at(rest, at, q, t.children(n)[i]));
                    assert(v[q - a] == rest[q - at]);
                }
                assert forall|i: int| 0 <= i < held.len() implies lies_at(
                    v,
                    a,
                    (#[trigger] self.nodes[a].attributes[i]).0 as int,
                    held[i],
                ) by {
                    assert(self.attribute_at(a, i));
                    assert(v[1 + i] == held[i]);
                }
            } else if k < at {
                let i = k - a - 1;
                assert(self.attribute_at(a, i));
                assert(self.laid_at(ends, k));
                assert(self.attributes(id)[i] == NodeId(k as usize));
                assert(v[k - a] == held[i]);
                assert(self.name(self.attributes(id)[i]) == t.name(held[i]));
                assert(t.children(held[i]).len() == 0);
            } else {
                assert(paired(self, t, rest, at, k));
                lemma_paired_within(self, t, rest, at, v, a, k);
            }
        }
    }

    proof fn lemma_paired_below(self, t: Tree, ends: Seq<int>, a: int, n: NodeId, i: int)
        requires
            self.wf(),
            self.laid(ends),
            t.wf(),
            t.upright(),
            t.has(n),
            t.all_apart(),
            0 <= a < self.nodes.len(),
            self.nodes[a].children.len() == t.children(n).len(),
            0 <= i <= t.children(n).len(),
            self.are_copies(NodeId(a as usize), t, n, i),
        ensures
            t.below(n, i, true).len() == ends[a] - self.begin(ends, a, i),
            forall|k: int|
                self.begin(ends, a, i) <= k < ends[a] ==> #[trigger] paired(
                    self,
                    t,
                    t.below(n, i, true),
                    self.begin(ends, a, i),
                    k,
                ),
            forall|j: int|
                i <= j < t.children(n).len() ==> lies_at(
                    t.below(n, i, true),
                    self.begin(ends, a, i),
                    (#[trigger] self.nodes[a].children[j]).0 as int,
                    t.children(n)[j],
                ),
        decreases t.height(n), t.children(n).len() - i,
    {
        assert(self.laid_at(ends, a));
        let at = self.begin(ends, a, i);
        let v = t.below(n, i, true);
        if i < t.children(n).len() {
            assert(self.child_at(ends, a, i));
            let mine = self.nodes[a].children[i];
            let c = mine.0 as int;
            assert(NodeId(c as usize) == mine);
            let child = t.children(n)[i];
            t.lemma_children_in(n);
            t.lemma_ranking();
            assert(t.has(child));
            assert(t.nodes[n.0 as int].children[i] == child);
            self.lemma_paired(t, ends, c, child);
            self.lemma_paired_below(t, ends, a, n, i + 1);
            self.lemma_below_laid(ends, a, i + 1);
            assert(self.laid_at(ends, c));
            let first = t.visit(child, true);
            let rest = t.below(n, i + 1, true);
            let next = self.begin(ends, a, i + 1);
            assert(next == ends[c]);
            assert(v == first + rest);
            assert(v.subrange(0, first.len() as int) =~= first);
            assert(v.subrange(next - at, next - at + rest.len()) =~= rest);
            assert forall|k: int| at <= k < ends[a] implies #[trigger] paired(self, t, v, at, k) by {
                if k < next {
                    assert(paired(self, t, first, c, k));
                    lemma_paired_within(self, t, first, c, v, at, k);
                } else {
                    assert(paired(self, t, rest, next, k));
                    lemma_paired_within(self, t, rest, next, v, at, k);
                }
            }
            assert forall|j: int| i <= j < t.children(n).len() implies lies_at(
                v,
                at,
                (#[trigger] self.nodes[a].children[j]).0 as int,
                t.children(n)[j],
            ) by {
                let q = self.nodes[a].children[j].0 as int;
                if j == i {
                    assert(first[0] == child);
                    assert(v[0] == first[0]);
                } else {
                    assert(lies_at(rest, next, q, t.children(n)[j]));
                    assert(v[q - at] == rest[q - next]);
                }
            }
        } else {
            assert(v =~= Seq::<NodeId>::empty());
        }
    }
}

/// Which node of a document a node of its copy is.
pub open spec fn originals(c: Tree, t: Tree, root: NodeId) -> Map<NodeId, NodeId> {
    Map::new(|k: NodeId| c.has(k), |k: NodeId| t.visit(root, true)[k.0 as int])
}

/// A copy of a document is like it, node for node: the node at a place of
/// the copy is the like of the node that has this place in the document.
pub proof fn law_copies_are_alike(c: Tree, t: Tree, root: NodeId)
    requires
        c.as_read(),
        t.hangs_together(root),
        c.is_copy(NodeId(0), t, root),
    ensures
        alike(c, t, originals(c, t, root)),
{
    let ends = choose|ends: Seq<int>| #[trigger] c.is_layout(ends);
    let v = t.visit(root, true);
    let m = originals(c, t, root);
    assert(t.has(root));
    c.lemma_paired(t, ends, 0, root);
    t.lemma_listed_once(root);
    assert(v.len() == c.nodes.len());
    assert forall|k: int| 0 <= k < v.len() implies #[trigger] v.contains(v[k]) by {}
    assert forall|n: NodeId| #[trigger] m.dom().contains(n) implies alike_at(c, t, m, n) by {
        let k = n.0 as int;
        let x = v[k];
        assert(NodeId(k as usize) == n);
        assert(paired(c, t, v, 0, k));
        assert(v.contains(v[k]));
        t.lemma_listed_below(root, x);
        assert(m[n] == x);
        let a = c.children(n);
        assert forall|i: int| 0 <= i < a.len() implies m.dom().contains(#[trigger] a[i]) && m[a[i]]
            == t.children(x)[i] by {
            assert(lies_at(v, 0, c.nodes[k].children[i].0 as int, t.children(x)[i]));
        }
        assert(t.children(x) =~= renamed(m, a));
        let b = c.attributes(n);
        assert forall|i: int| 0 <= i < b.len() implies m.dom().contains(#[trigger] b[i]) && m[b[i]]
            == t.attributes(x)[i] by {
            assert(lies_at(v, 0, c.nodes[k].attributes[i].0 as int, t.attributes(x)[i]));
        }
        assert(t.attributes(x) =~= renamed(m, b));
        Tree::lemma_place_once(v, k);
        assert(t.document_order(x) == k);
        assert(c.document_order(n) == k);
        if k == 0 {
            assert(v[0] == root);
        } else {
            assert(c.nodes[k].parent is Some);
            let p = c.parent(n)->0;
            c.lemma_parent(n);
            let pk = p.0 as int;
            assert(paired(c, t, v, 0, pk));
            let y = v[pk];
            assert(v.contains(v[pk]));
            t.lemma_listed_below(root, y);
            assert(NodeId(y.0 as int as usize) == y);
            if c.children(p).contains(n) {
                let i = choose|i: int| 0 <= i < c.children(p).len() && c.children(p)[i] == n;
                assert(lies_at(v, 0, c.nodes[pk].children[i].0 as int, t.children(y)[i]));
                assert(t.nodes[y.0 as int].children[i] == x);
                assert(t.parent(x) == Some(y));
            } else {
                let i = choose|i: int| 0 <= i < c.attributes(p).len() && c.attributes(p)[i] == n;
                assert(lies_at(v, 0, c.nodes[pk].attributes[i].0 as int, t.attributes(y)[i]));
                assert(t.attributes_apart(y));
                assert(t.parent(t.attributes(y)[i]) == Some(y));
            }
        }
    }
    assert forall|a: NodeId, b: NodeId|
        m.dom().contains(a) && m.dom().contains(b) && a != b implies #[trigger] apart(m, a, b) by {
        assert(v[a.0 as int] != v[b.0 as int]);
    }
    assert(m[NodeId(0)] == v[0]);
    assert(v[0] == root);
}

} // verus!
