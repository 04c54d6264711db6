//! Lists in document order.

use crate::tree::{NodeId, Tree};
use vstd::prelude::*;

verus! {

impl Tree {
    /// Whether a list stands in document order.
    pub open spec fn in_order(self, s: Seq<NodeId>) -> bool {
        forall|i: int, j: int|
            0 <= i < j < s.len() ==> self.document_order(#[trigger] s[i]) <= self.document_order(
                #[trigger] s[j],
            )
    }

    proof fn lemma_put_in_order(self, s: Seq<NodeId>, n: NodeId)
        requires
            self.in_order(s),
        ensures
            self.in_order(self.put(s, n)),
            self.put(s, n).to_multiset() == s.to_multiset().insert(n),
            forall|i: int|
                0 <= i < self.put(s, n).len() ==> #[trigger] self.put(s, n)[i] == n || s.contains(
                    self.put(s, n)[i],
                ),
            self.put(s, n).contains(n),
            forall|m: NodeId| #[trigger] s.contains(m) ==> self.put(s, n).contains(m),
        decreases s.len(),
    {
        broadcast use vstd::seq_lib::group_to_multiset_ensures;

        let r = self.put(s, n);
        if s.len() == 0 || self.document_order(s.last()) <= self.document_order(n) {
            assert(r == s.push(n));
            assert forall|i: int, j: int| 0 <= i < j < r.len() implies self.document_order(
                #[trigger] r[i],
            ) <= self.document_order(#[trigger] r[j]) by {
                if j == s.len() && i < s.len() - 1 {
                    assert(self.document_order(s[i]) <= self.document_order(s[s.len() - 1]));
                }
            }
            assert(r[s.len() as int] == n);
            assert forall|i: int| 0 <= i < r.len() implies #[trigger] r[i] == n || s.contains(
                r[i],
            ) by {
                if i < s.len() {
                    assert(s[i] == r[i]);
                }
            }
            assert forall|m: NodeId| #[trigger] s.contains(m) implies r.contains(m) by {
                let k = choose|k: int| 0 <= k < s.len() && s[k] == m;
                assert(r[k] == m);
            }
        } else {
            let d = s.drop_last();
            assert forall|i: int, j: int| 0 <= i < j < d.len() implies self.document_order(
                #[trigger] d[i],
            ) <= self.document_order(#[trigger] d[j]) by {
                assert(d[i] == s[i] && d[j] == s[j]);
            }
            self.lemma_put_in_order(d, n);
            let p = self.put(d, n);
            assert(r == p.push(s.last()));
            assert(s == d.push(s.last()));
            assert forall|i: int, j: int| 0 <= i < j < r.len() implies self.document_order(
                #[trigger] r[i],
            ) <= self.document_order(#[trigger] r[j]) by {
                if j == p.len() {
                    assert(r[i] == p[i]);
                    if p[i] != n {
                        let k = choose|k: int| 0 <= k < d.len() && d[k] == p[i];
                        assert(d[k] == s[k]);
                        assert(self.document_order(s[k]) <= self.document_order(s[s.len() - 1]));
                    }
                } else {
                    assert(r[i] == p[i] && r[j] == p[j]);
                }
            }
            assert(s.to_multiset() == d.to_multiset().insert(s.last()));
            assert(r.to_multiset() == p.to_multiset().insert(s.last()));
            assert(d.to_multiset().insert(n).insert(s.last()) =~= d.to_multiset().insert(
                s.last(),
            ).insert(n));
            assert forall|i: int| 0 <= i < r.len() implies #[trigger] r[i] == n || s.contains(
                r[i],
            ) by {
                if i < p.len() {
                    assert(r[i] == p[i]);
                    if p[i] != n {
                        let k = choose|k: int| 0 <= k < d.len() && d[k] == p[i];
                        assert(s[k] == p[i]);
                    }
                } else {
                    assert(s[s.len() - 1] == r[i]);
                }
            }
            let k = choose|k: int| 0 <= k < p.len() && p[k] == n;
            assert(r[k] == n);
            assert forall|m: NodeId| #[trigger] s.contains(m) implies r.contains(m) by {
                let k = choose|k: int| 0 <= k < s.len() && s[k] == m;
                if k < d.len() {
                    assert(d[k] == m);
                    assert(d.contains(m));
                    let h = choose|h: int| 0 <= h < p.len() && p[h] == m;
                    assert(r[h] == m);
                } else {
                    assert(r[p.len() as int] == m);
                }
            }
        }
    }

    /// A sorted list holds what it held, as often, in document order.
    pub proof fn law_sorted_in_document_order(self, s: Seq<NodeId>)
        ensures
            self.in_order(self.sorted(s)),
            self.sorted(s).to_multiset() == s.to_multiset(),
            forall|n: NodeId| #[trigger] self.sorted(s).contains(n) <==> s.contains(n),
        decreases s.len(),
    {
        broadcast use vstd::seq_lib::group_to_multiset_ensures;

        if s.len() > 0 {
            let d = s.drop_last();
            self.law_sorted_in_document_order(d);
            self.lemma_put_in_order(self.sorted(d), s.last());
            assert(s == d.push(s.last()));
            let r = self.sorted(s);
            assert forall|n: NodeId| #[trigger] r.contains(n) <==> s.contains(n) by {
                if r.contains(n) {
                    let i = choose|i: int| 0 <= i < r.len() && r[i] == n;
                    if n != s.last() {
                        assert(self.sorted(d).contains(n));
                        assert(d.contains(n));
                        let k = choose|k: int| 0 <= k < d.len() && d[k] == n;
                        assert(s[k] == n);
                    } else {
                        assert(s[s.len() - 1] == n);
                    }
                }
                if s.contains(n) {
                    let k = choose|k: int| 0 <= k < s.len() && s[k] == n;
                    if k < d.len() {
                        assert(d[k] == n);
                        assert(d.contains(n));
                        assert(self.sorted(d).contains(n));
                    }
                }
            }
        } else {
            assert(self.sorted(s) == s);
        }
    }

    /// The descendants of a node come in document order.
    pub proof fn law_descendants_in_document_order(self, n: NodeId)
        requires
            self.wf(),
            self.has(n),
        ensures
            self.in_order(self.descendants(n)),
            self.descendants(n).to_multiset() == self.below(n, 0, false).to_multiset(),
    {
        self.law_sorted_in_document_order(self.below(n, 0, false));
    }

    /// A walk goes by the links alone.
    pub proof fn lemma_visit_same(self, that: Tree, n: NodeId, attributes: bool)
        requires
            self.wf(),
            that.wf(),
            self.nodes == that.nodes,
            self.has(n),
        ensures
            self.visit(n, attributes) == that.visit(n, attributes),
        decreases self.height(n), self.children(n).len() + 1,
    {
        self.lemma_below_same(that, n, 0, attributes);
    }

    proof fn lemma_below_same(self, that: Tree, n: NodeId, i: int, attributes: bool)
        requires
            self.wf(),
            that.wf(),
            self.nodes == that.nodes,
            self.has(n),
            0 <= i,
        ensures
            self.below(n, i, attributes) == that.below(n, i, attributes),
        decreases self.height(n), self.children(n).len() - i,
    {
        if i < self.children(n).len() {
            self.lemma_ranking();
            self.lemma_children_in(n);
            let child = self.children(n)[i];
            assert(self.nodes[n.0 as int].children[i] == child);
            assert(self.has(child));
            self.lemma_visit_same(that, child, attributes);
            self.lemma_below_same(that, n, i + 1, attributes);
        }
    }

    /// Document order that has been computed is computed the same again.
    pub proof fn law_reindexed_once(self)
        requires
            self.wf(),
        ensures
            self.reindexed().wf(),
            self.reindexed().reindexed() == self.reindexed(),
    {
        let t = self.reindexed();
        self.lemma_rerooted_wf(self.root, t.order);
        assert(t == Tree { root: self.root, order: t.order, ..self });
        if let Some(root) = self.root {
            self.lemma_visit_same(t, root, true);
            assert(t.reindexed().order =~= t.order);
        }
    }
}

} // verus!
