//! The elements that stand under a root.

use crate::tree::{NodeId, Tree};
use vstd::prelude::*;

verus! {

/// Whether a node is one of the elements under a root.
pub open spec fn stands_under(t: Tree, root: NodeId, n: NodeId) -> bool
    decreases t.ranking().bound - t.height(n),
    when t.wf() && t.has(n)
{
    n == root || (t.parent(n) matches Some(p) && t.children(p).contains(n) && {
        proof {
            t.lemma_parent(n);
        }
        stands_under(t, root, p)
    })
}

pub proof fn lemma_visited(t: Tree, root: NodeId, m: NodeId, n: NodeId)
    requires
        t.wf(),
        t.upright(),
        t.has(m),
        stands_under(t, root, m),
        t.visit(m, false).contains(n),
    ensures
        t.has(n),
        stands_under(t, root, n),
    decreases t.height(m), t.children(m).len() + 1,
{
    if n != m {
        let v = t.visit(m, false);
        let k = choose|k: int| 0 <= k < v.len() && v[k] == n;
        assert(v[0] == m);
        assert(t.below(m, 0, false)[k - 1] == n);
        lemma_below_visited(t, root, m, 0, n);
    }
}

pub proof fn lemma_below_visited(t: Tree, root: NodeId, m: NodeId, i: int, n: NodeId)
    requires
        t.wf(),
        t.upright(),
        t.has(m),
        0 <= i,
        stands_under(t, root, m),
        t.below(m, i, false).contains(n),
    ensures
        t.has(n),
        stands_under(t, root, n),
    decreases t.height(m), t.children(m).len() - i,
{
    let s = t.below(m, i, false);
    let k = choose|k: int| 0 <= k < s.len() && s[k] == n;
    if i < t.children(m).len() {
        let c = t.children(m)[i];
        assert(t.nodes[m.0 as int].children[i] == c);
        assert(NodeId(m.0 as int as usize) == m);
        t.lemma_ranking();
        let first = t.visit(c, false);
        if k < first.len() {
            assert(first[k] == n);
            assert(t.children(m).contains(c));
            lemma_visited(t, root, c, n);
        } else {
            assert(t.below(m, i + 1, false)[k - first.len()] == n);
            lemma_below_visited(t, root, m, i + 1, n);
        }
    }
}

/// Children of what is listed are listed.
proof fn lemma_child_visited(t: Tree, m: NodeId, p: NodeId, x: NodeId)
    requires
        t.wf(),
        t.has(m),
        t.visit(m, false).contains(p),
        t.children(p).contains(x),
    ensures
        t.below(m, 0, false).contains(x),
    decreases t.height(m), t.children(m).len() + 1,
{
    let v = t.visit(m, false);
    if p == m {
        let i = choose|i: int| 0 <= i < t.children(m).len() && t.children(m)[i] == x;
        lemma_child_listed(t, m, 0, i);
    } else {
        let k = choose|k: int| 0 <= k < v.len() && v[k] == p;
        assert(v[0] == m);
        assert(t.below(m, 0, false)[k - 1] == p);
        lemma_child_below(t, m, 0, p, x);
    }
}

proof fn lemma_child_listed(t: Tree, m: NodeId, i: int, j: int)
    requires
        t.wf(),
        t.has(m),
        0 <= i <= j < t.children(m).len(),
    ensures
        t.below(m, i, false).contains(t.children(m)[j]),
    decreases j - i,
{
    t.lemma_children_in(m);
    t.lemma_ranking();
    let c = t.children(m)[i];
    assert(t.nodes[m.0 as int].children[i] == c);
    assert(t.has(c));
    let first = t.visit(c, false);
    let all = t.below(m, i, false);
    if i == j {
        assert(first[0] == c);
        assert(all[0] == c);
    } else {
        lemma_child_listed(t, m, i + 1, j);
        let rest = t.below(m, i + 1, false);
        let k = choose|k: int| 0 <= k < rest.len() && rest[k] == t.children(m)[j];
        assert(all[first.len() + k] == t.children(m)[j]);
    }
}

proof fn lemma_child_below(t: Tree, m: NodeId, i: int, p: NodeId, x: NodeId)
    requires
        t.wf(),
        t.has(m),
        0 <= i,
        t.below(m, i, false).contains(p),
        t.children(p).contains(x),
    ensures
        t.below(m, i, false).contains(x),
    decreases t.height(m), t.children(m).len() - i,
{
    let s = t.below(m, i, false);
    let k = choose|k: int| 0 <= k < s.len() && s[k] == p;
    if i < t.children(m).len() {
        let c = t.children(m)[i];
        t.lemma_children_in(m);
        t.lemma_ranking();
        assert(t.nodes[m.0 as int].children[i] == c);
        assert(t.has(c));
        let first = t.visit(c, false);
        if k < first.len() {
            assert(first[k] == p);
            lemma_child_visited(t, c, p, x);
            let b = t.below(c, 0, false);
            let j = choose|j: int| 0 <= j < b.len() && b[j] == x;
            assert(first[j + 1] == x);
            assert(s[j + 1] == x);
        } else {
            let rest = t.below(m, i + 1, false);
            assert(rest[k - first.len()] == p);
            lemma_child_below(t, m, i + 1, p, x);
            let j = choose|j: int| 0 <= j < rest.len() && rest[j] == x;
            assert(s[first.len() + j] == x);
        }
    }
}

/// What stands under a root is listed below it.
pub proof fn lemma_standing_listed(t: Tree, root: NodeId, x: NodeId)
    requires
        t.wf(),
        t.has(root),
        t.has(x),
        stands_under(t, root, x),
    ensures
        t.visit(root, false).contains(x),
        x != root ==> t.below(root, 0, false).contains(x),
    decreases t.ranking().bound - t.height(x),
{
    let v = t.visit(root, false);
    if x == root {
        assert(v[0] == x);
    } else {
        let p = t.parent(x)->0;
        t.lemma_parent(x);
        lemma_standing_listed(t, root, p);
        lemma_child_visited(t, root, p, x);
        let b = t.below(root, 0, false);
        let k = choose|k: int| 0 <= k < b.len() && b[k] == x;
        assert(v[k + 1] == x);
    }
}

pub proof fn lemma_distinct_children(t: Tree, p: NodeId)
    requires
        t.upright(),
        t.has(p),
    ensures
        t.children(p).no_duplicates(),
{
    let all = t.children(p);
    assert forall|a: int, b: int| 0 <= a < b < all.len() implies all[a] != all[b] by {
        assert(t.nodes[p.0 as int].children[a] != t.nodes[p.0 as int].children[b]);
    }
}

/// A list of different nodes is no longer than the arena they are of.
pub proof fn lemma_distinct_fit(s: Seq<NodeId>, n: int)
    requires
        s.no_duplicates(),
        forall|i: int| 0 <= i < s.len() ==> (#[trigger] s[i]).0 < n,
        0 <= n,
    ensures
        s.len() <= n,
{
    let ints = Seq::new(s.len(), |i: int| s[i].0 as int);
    assert(ints.no_duplicates()) by {
        assert forall|i: int, j: int|
            0 <= i < ints.len() && 0 <= j < ints.len() && i != j implies ints[i] != ints[j] by {
            assert(s[i] != s[j]);
        }
    }
    ints.unique_seq_to_set();
    vstd::set_lib::lemma_int_range(0, n);
    assert(ints.to_set().subset_of(vstd::set_lib::set_int_range(0, n))) by {
        assert forall|x: int| ints.to_set().contains(x) implies vstd::set_lib::set_int_range(
            0,
            n,
        ).contains(x) by {
            let i = choose|i: int| 0 <= i < ints.len() && ints[i] == x;
            assert(s[i].0 < n);
        }
    }
    vstd::set_lib::lemma_len_subset(ints.to_set(), vstd::set_lib::set_int_range(0, n));
}

} // verus!
