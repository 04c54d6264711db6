//! Evaluation in documents that are alike, node for node.
//!
//! Where in its arena a document keeps a node is of no account: an
//! expression comes to the same in every document that has the same shape,
//! the same names and the same values.

use crate::eval::comparison::{
    compared, flipped, some_number, some_ordered, some_ordered_pair, some_pair, some_text, standing,
};
use crate::eval::nodes::{
    axis_nodes, beyond, candidates, deduplicated, named_from, position_from, siblings,
    sorted_unique,
};
use crate::eval::value::{
    kind_text, number_of, number_of_text, string_at, text_of, truth, ValueModel,
};
use crate::eval::{
    combined, eval, filtered, keeps, kept, names_root, node_set, results, stepped, table_id, table_of,
    walked, Here, Surroundings,
};
use crate::functions::{
    all_numbers, applied, arity, builtin, called, concatenated, number_result, numbers_of,
    strings_from, text_result, total_from, truth_result, Builtin, Evaluated,
};
use crate::number::{sum, with_sign, Number};
use crate::parser::ast::{Axis, BinaryOp, ExprModel, StepModel, TestModel};
use crate::tree::{NodeId, Tree};
use vstd::prelude::*;

verus! {

/// Nodes under the names they have elsewhere.
pub open spec fn renamed(m: Map<NodeId, NodeId>, s: Seq<NodeId>) -> Seq<NodeId> {
    Seq::new(s.len(), |i: int| m[s[i]])
}

pub open spec fn known(m: Map<NodeId, NodeId>, s: Seq<NodeId>) -> bool {
    forall|i: int| 0 <= i < s.len() ==> m.dom().contains(#[trigger] s[i])
}

/// Whether a node is in one document what its like is in another.
pub open spec fn alike_at(t: Tree, u: Tree, m: Map<NodeId, NodeId>, n: NodeId) -> bool {
    &&& t.has(n)
    &&& u.has(m[n])
    &&& u.name(m[n]) == t.name(n)
    &&& u.value(m[n]) == t.value(n)
    &&& u.document_order(m[n]) == t.document_order(n)
    &&& known(m, t.children(n))
    &&& known(m, t.attributes(n))
    &&& u.children(m[n]) == renamed(m, t.children(n))
    &&& u.attributes(m[n]) == renamed(m, t.attributes(n))
    &&& match t.parent(n) {
        None => u.parent(m[n]) is None,
        Some(p) => m.dom().contains(p) && u.parent(m[n]) == Some(m[p]),
    }
}

/// Whether two nodes have different names elsewhere.
pub open spec fn apart(m: Map<NodeId, NodeId>, a: NodeId, b: NodeId) -> bool {
    m[a] != m[b]
}

/// Whether two documents are alike, node for node: `m` says which node of
/// the one is which of the other. It need not name nodes that nothing leads
/// to.
pub open spec fn alike(t: Tree, u: Tree, m: Map<NodeId, NodeId>) -> bool {
    &&& t.wf()
    &&& u.wf()
    &&& t.root is Some
    &&& m.dom().contains(t.root->0)
    &&& u.root == Some(m[t.root->0])
    &&& forall|n: NodeId| #[trigger] m.dom().contains(n) ==> alike_at(t, u, m, n)
    &&& forall|a: NodeId, b: NodeId|
        m.dom().contains(a) && m.dom().contains(b) && a != b ==> #[trigger] apart(m, a, b)
}

// ---------------------------------------------------------------------------
// Lists
// ---------------------------------------------------------------------------

proof fn lemma_joined(m: Map<NodeId, NodeId>, a: Seq<NodeId>, b: Seq<NodeId>)
    requires
        known(m, a),
        known(m, b),
    ensures
        known(m, a + b),
        renamed(m, a + b) == renamed(m, a) + renamed(m, b),
{
    assert forall|i: int| 0 <= i < (a + b).len() implies m.dom().contains(#[trigger] (a + b)[i]) by {
        if i < a.len() {
            assert((a + b)[i] == a[i]);
        } else {
            assert((a + b)[i] == b[i - a.len()]);
        }
    }
    assert(renamed(m, a + b) =~= renamed(m, a) + renamed(m, b));
}

proof fn lemma_held(t: Tree, u: Tree, m: Map<NodeId, NodeId>, s: Seq<NodeId>, x: NodeId)
    requires
        alike(t, u, m),
        known(m, s),
        m.dom().contains(x),
    ensures
        renamed(m, s).contains(m[x]) <==> s.contains(x),
{
    let r = renamed(m, s);
    if r.contains(m[x]) {
        let k = choose|k: int| 0 <= k < r.len() && r[k] == m[x];
        assert(m.dom().contains(s[k]));
        if s[k] != x {
            assert(apart(m, s[k], x));
        }
    }
    if s.contains(x) {
        let k = choose|k: int| 0 <= k < s.len() && s[k] == x;
        assert(r[k] == m[x]);
    }
}

proof fn lemma_shorter(m: Map<NodeId, NodeId>, s: Seq<NodeId>)
    requires
        known(m, s),
        s.len() > 0,
    ensures
        known(m, s.drop_last()),
        m.dom().contains(s.last()),
        renamed(m, s).drop_last() == renamed(m, s.drop_last()),
        renamed(m, s).last() == m[s.last()],
{
    let d = s.drop_last();
    assert forall|i: int| 0 <= i < d.len() implies m.dom().contains(#[trigger] d[i]) by {
        assert(d[i] == s[i]);
    }
    assert(m.dom().contains(s[s.len() - 1]));
    assert(renamed(m, s).drop_last() =~= renamed(m, d));
}

proof fn lemma_put(t: Tree, u: Tree, m: Map<NodeId, NodeId>, s: Seq<NodeId>, n: NodeId)
    requires
        alike(t, u, m),
        known(m, s),
        m.dom().contains(n),
    ensures
        known(m, t.put(s, n)),
        u.put(renamed(m, s), m[n]) == renamed(m, t.put(s, n)),
    decreases s.len(),
{
    assert(alike_at(t, u, m, n));
    if s.len() == 0 || t.document_order(s.last()) <= t.document_order(n) {
        if s.len() > 0 {
            lemma_shorter(m, s);
            assert(alike_at(t, u, m, s.last()));
        }
        assert(renamed(m, s.push(n)) =~= renamed(m, s).push(m[n]));
    } else {
        lemma_shorter(m, s);
        assert(alike_at(t, u, m, s.last()));
        lemma_put(t, u, m, s.drop_last(), n);
        let p = t.put(s.drop_last(), n);
        assert(renamed(m, p.push(s.last())) =~= renamed(m, p).push(m[s.last()]));
    }
}

proof fn lemma_sorted(t: Tree, u: Tree, m: Map<NodeId, NodeId>, s: Seq<NodeId>)
    requires
        alike(t, u, m),
        known(m, s),
    ensures
        known(m, t.sorted(s)),
        u.sorted(renamed(m, s)) == renamed(m, t.sorted(s)),
    decreases s.len(),
{
    if s.len() > 0 {
        lemma_shorter(m, s);
        lemma_sorted(t, u, m, s.drop_last());
        lemma_put(t, u, m, t.sorted(s.drop_last()), s.last());
    } else {
        assert(renamed(m, s) =~= s);
    }
}

proof fn lemma_deduplicated(t: Tree, u: Tree, m: Map<NodeId, NodeId>, s: Seq<NodeId>)
    requires
        alike(t, u, m),
        known(m, s),
    ensures
        known(m, deduplicated(s)),
        deduplicated(renamed(m, s)) == renamed(m, deduplicated(s)),
    decreases s.len(),
{
    if s.len() > 1 {
        lemma_shorter(m, s);
        lemma_deduplicated(t, u, m, s.drop_last());
        let near = s[s.len() - 2];
        assert(m.dom().contains(near));
        assert(renamed(m, s)[s.len() - 2] == m[near]);
        if s.last() != near {
            assert(apart(m, s.last(), near));
            let p = deduplicated(s.drop_last());
            assert(renamed(m, p.push(s.last())) =~= renamed(m, p).push(m[s.last()]));
        }
    } else {
        assert(renamed(m, s).len() <= 1);
    }
}

proof fn lemma_unique(t: Tree, u: Tree, m: Map<NodeId, NodeId>, s: Seq<NodeId>)
    requires
        alike(t, u, m),
        known(m, s),
    ensures
        known(m, sorted_unique(t, s)),
        sorted_unique(u, renamed(m, s)) == renamed(m, sorted_unique(t, s)),
{
    lemma_sorted(t, u, m, s);
    lemma_deduplicated(t, u, m, t.sorted(s));
}

// ---------------------------------------------------------------------------
// Below and above
// ---------------------------------------------------------------------------

proof fn lemma_visit(t: Tree, u: Tree, m: Map<NodeId, NodeId>, n: NodeId)
    requires
        alike(t, u, m),
        m.dom().contains(n),
    ensures
        known(m, t.visit(n, false)),
        u.visit(m[n], false) == renamed(m, t.visit(n, false)),
    decreases t.height(n), t.children(n).len() + 1,
{
    assert(alike_at(t, u, m, n));
    lemma_below(t, u, m, n, 0);
    let none = Seq::<NodeId>::empty();
    assert(seq![n] + none =~= seq![n]);
    assert(seq![m[n]] + none =~= seq![m[n]]);
    assert(renamed(m, seq![n]) =~= seq![m[n]]);
    lemma_joined(m, seq![n], t.below(n, 0, false));
}

proof fn lemma_below(t: Tree, u: Tree, m: Map<NodeId, NodeId>, n: NodeId, i: int)
    requires
        alike(t, u, m),
        m.dom().contains(n),
        0 <= i,
    ensures
        known(m, t.below(n, i, false)),
        u.below(m[n], i, false) == renamed(m, t.below(n, i, false)),
    decreases t.height(n), t.children(n).len() - i,
{
    assert(alike_at(t, u, m, n));
    if i < t.children(n).len() {
        let child = t.children(n)[i];
        assert(m.dom().contains(child));
        t.lemma_ranking();
        assert(t.nodes[n.0 as int].children[i] == child);
        assert(u.children(m[n])[i] == m[child]);
        lemma_visit(t, u, m, child);
        lemma_below(t, u, m, n, i + 1);
        lemma_joined(m, t.visit(child, false), t.below(n, i + 1, false));
    } else {
        assert(u.below(m[n], i, false) =~= renamed(m, t.below(n, i, false)));
    }
}

pub proof fn lemma_descendants(t: Tree, u: Tree, m: Map<NodeId, NodeId>, n: NodeId)
    requires
        alike(t, u, m),
        m.dom().contains(n),
    ensures
        known(m, t.descendants(n)),
        u.descendants(m[n]) == renamed(m, t.descendants(n)),
{
    lemma_below(t, u, m, n, 0);
    lemma_sorted(t, u, m, t.below(n, 0, false));
}

proof fn lemma_ancestors(t: Tree, u: Tree, m: Map<NodeId, NodeId>, n: NodeId)
    requires
        alike(t, u, m),
        m.dom().contains(n),
    ensures
        known(m, t.ancestors(n)),
        u.ancestors(m[n]) == renamed(m, t.ancestors(n)),
    decreases t.ranking().bound - t.height(n),
{
    assert(alike_at(t, u, m, n));
    match t.parent(n) {
        Some(p) => {
            t.lemma_parent(n);
            lemma_ancestors(t, u, m, p);
            assert(renamed(m, seq![p]) =~= seq![m[p]]);
            lemma_joined(m, seq![p], t.ancestors(p));
        },
        None => {
            assert(u.ancestors(m[n]) =~= renamed(m, t.ancestors(n)));
        },
    }
}

proof fn lemma_values(t: Tree, u: Tree, m: Map<NodeId, NodeId>, s: Seq<NodeId>)
    requires
        alike(t, u, m),
        known(m, s),
    ensures
        u.values(renamed(m, s)) == t.values(s),
    decreases s.len(),
{
    if s.len() > 0 {
        lemma_shorter(m, s);
        lemma_values(t, u, m, s.drop_last());
        assert(alike_at(t, u, m, s.last()));
    }
}

/// A node and its like hold the same text.
pub proof fn lemma_text(t: Tree, u: Tree, m: Map<NodeId, NodeId>, n: NodeId)
    requires
        alike(t, u, m),
        m.dom().contains(n),
    ensures
        u.string_value(m[n]) == t.string_value(n),
        string_at(u, m[n]) == string_at(t, n),
        u.name(m[n]) == t.name(n),
        t.has(n),
        u.has(m[n]),
{
    assert(alike_at(t, u, m, n));
    lemma_descendants(t, u, m, n);
    lemma_values(t, u, m, t.descendants(n));
}

// ---------------------------------------------------------------------------
// Axes
// ---------------------------------------------------------------------------

proof fn lemma_position(
    t: Tree,
    u: Tree,
    m: Map<NodeId, NodeId>,
    s: Seq<NodeId>,
    n: NodeId,
    i: int,
)
    requires
        alike(t, u, m),
        known(m, s),
        m.dom().contains(n),
        0 <= i,
    ensures
        position_from(renamed(m, s), m[n], i) == position_from(s, n, i),
        position_from(s, n, i) matches Some(k) ==> i <= k < s.len(),
    decreases s.len() - i,
{
    if i < s.len() {
        assert(m.dom().contains(s[i]));
        if s[i] != n {
            assert(apart(m, s[i], n));
        }
        lemma_position(t, u, m, s, n, i + 1);
    }
}

proof fn lemma_siblings(t: Tree, u: Tree, m: Map<NodeId, NodeId>, n: NodeId, following: bool)
    requires
        alike(t, u, m),
        m.dom().contains(n),
    ensures
        known(m, siblings(t, n, following)),
        siblings(u, m[n], following) == renamed(m, siblings(t, n, following)),
{
    assert(alike_at(t, u, m, n));
    match t.parent(n) {
        Some(p) => {
            assert(alike_at(t, u, m, p));
            let all = t.children(p);
            lemma_position(t, u, m, all, n, 0);
            let i = match position_from(all, n, 0) {
                Some(i) => i,
                None => 0,
            };
            let r = siblings(t, n, following);
            assert forall|k: int| 0 <= k < r.len() implies m.dom().contains(#[trigger] r[k]) by {
                if following {
                    assert(r[k] == all[i + 1 + k]);
                    assert(m.dom().contains(all[i + 1 + k]));
                } else {
                    assert(r[k] == all[k]);
                    assert(m.dom().contains(all[k]));
                }
            }
            assert(siblings(u, m[n], following) =~= renamed(m, r));
        },
        None => {
            assert(siblings(u, m[n], following) =~= renamed(m, siblings(t, n, following)));
        },
    }
}

proof fn lemma_beyond(
    t: Tree,
    u: Tree,
    m: Map<NodeId, NodeId>,
    s: Seq<NodeId>,
    n: NodeId,
    following: bool,
)
    requires
        alike(t, u, m),
        known(m, s),
        m.dom().contains(n),
    ensures
        known(m, beyond(t, s, n, following)),
        beyond(u, renamed(m, s), m[n], following) == renamed(m, beyond(t, s, n, following)),
    decreases s.len(),
{
    if s.len() > 0 {
        lemma_shorter(m, s);
        let d = s.drop_last();
        lemma_beyond(t, u, m, d, n, following);
        let x = s.last();
        assert(alike_at(t, u, m, x));
        assert(alike_at(t, u, m, n));
        lemma_descendants(t, u, m, n);
        lemma_ancestors(t, u, m, n);
        lemma_held(t, u, m, t.descendants(n), x);
        lemma_held(t, u, m, t.ancestors(n), x);
        let rest = beyond(t, d, n, following);
        assert(renamed(m, rest.push(x)) =~= renamed(m, rest).push(m[x]));
    } else {
        assert(renamed(m, s) =~= s);
    }
}

proof fn lemma_axis(t: Tree, u: Tree, m: Map<NodeId, NodeId>, n: NodeId, axis: Axis)
    requires
        alike(t, u, m),
        m.dom().contains(n),
    ensures
        known(m, axis_nodes(t, n, axis)),
        axis_nodes(u, m[n], axis) == renamed(m, axis_nodes(t, n, axis)),
        candidates(t, n, axis) == Ok::<Seq<NodeId>, Seq<char>>(axis_nodes(t, n, axis)),
        candidates(u, m[n], axis) == Ok::<Seq<NodeId>, Seq<char>>(axis_nodes(u, m[n], axis)),
{
    assert(alike_at(t, u, m, n));
    let root = t.root->0;
    lemma_descendants(t, u, m, n);
    lemma_ancestors(t, u, m, n);
    lemma_descendants(t, u, m, root);
    assert(renamed(m, seq![n]) =~= seq![m[n]]);
    assert(renamed(m, seq![root]) =~= seq![m[root]]);
    lemma_joined(m, seq![n], t.descendants(n));
    lemma_joined(m, seq![n], t.ancestors(n));
    lemma_joined(m, seq![root], t.descendants(root));
    let document = seq![root] + t.descendants(root);
    match axis {
        Axis::Parent => {
            assert(axis_nodes(u, m[n], axis) =~= renamed(m, axis_nodes(t, n, axis)));
        },
        Axis::FollowingSibling => lemma_siblings(t, u, m, n, true),
        Axis::PrecedingSibling => lemma_siblings(t, u, m, n, false),
        Axis::Following => lemma_beyond(t, u, m, document, n, true),
        Axis::Preceding => lemma_beyond(t, u, m, document, n, false),
        _ => {},
    }
}

/// A list of nodes that was found, under the names these have elsewhere.
pub open spec fn renamed_found(
    m: Map<NodeId, NodeId>,
    r: Result<Seq<NodeId>, Seq<char>>,
) -> Result<Seq<NodeId>, Seq<char>> {
    match r {
        Ok(s) => Ok(renamed(m, s)),
        Err(e) => Err(e),
    }
}

pub open spec fn known_found(m: Map<NodeId, NodeId>, r: Result<Seq<NodeId>, Seq<char>>) -> bool {
    r matches Ok(s) ==> known(m, s)
}

proof fn lemma_named(
    t: Tree,
    u: Tree,
    m: Map<NodeId, NodeId>,
    s: Seq<NodeId>,
    test: TestModel,
    i: int,
)
    requires
        alike(t, u, m),
        known(m, s),
        0 <= i,
    ensures
        known_found(m, named_from(t, s, test, i)),
        named_from(u, renamed(m, s), test, i) == renamed_found(m, named_from(t, s, test, i)),
    decreases s.len() - i,
{
    if i < s.len() {
        assert(m.dom().contains(s[i]));
        assert(alike_at(t, u, m, s[i]));
        lemma_named(t, u, m, s, test, i + 1);
        assert(renamed(m, seq![s[i]]) =~= seq![m[s[i]]]);
        if let Ok(rest) = named_from(t, s, test, i + 1) {
            lemma_joined(m, seq![s[i]], rest);
        }
    } else {
        assert(renamed(m, Seq::empty()) =~= Seq::<NodeId>::empty());
    }
}

// ---------------------------------------------------------------------------
// Values
// ---------------------------------------------------------------------------

/// What an expression comes to, with its nodes under the names they have
/// elsewhere.
pub open spec fn like(m: Map<NodeId, NodeId>, r: Evaluated) -> Evaluated {
    match r {
        Ok(ValueModel::NodeSet(s)) => Ok(ValueModel::NodeSet(renamed(m, s))),
        _ => r,
    }
}

pub open spec fn known_value(m: Map<NodeId, NodeId>, r: Evaluated) -> bool {
    r matches Ok(ValueModel::NodeSet(s)) ==> known(m, s)
}

pub open spec fn likes(m: Map<NodeId, NodeId>, s: Seq<Evaluated>) -> Seq<Evaluated> {
    Seq::new(s.len(), |i: int| like(m, s[i]))
}

pub open spec fn known_values(m: Map<NodeId, NodeId>, s: Seq<Evaluated>) -> bool {
    forall|i: int| 0 <= i < s.len() ==> known_value(m, #[trigger] s[i])
}

proof fn lemma_value(t: Tree, u: Tree, m: Map<NodeId, NodeId>, r: Evaluated)
    requires
        alike(t, u, m),
        known_value(m, r),
    ensures
        text_result(like(m, r), u) == text_result(r, t),
        number_result(like(m, r), u) == number_result(r, t),
        truth_result(like(m, r)) == truth_result(r),
        r matches Ok(v) ==> (like(m, r) matches Ok(w) && text_of(w, u) == text_of(v, t)
            && number_of(w, u) == number_of(v, t) && kind_text(w) == kind_text(v) && truth(w)
            == truth(v)),
{
    if let Ok(ValueModel::NodeSet(nodes)) = r {
        if nodes.len() > 0 {
            assert(m.dom().contains(nodes[0]));
            lemma_text(t, u, m, nodes[0]);
            assert(renamed(m, nodes)[0] == m[nodes[0]]);
        }
    }
}

proof fn lemma_strings(t: Tree, u: Tree, m: Map<NodeId, NodeId>, s: Seq<NodeId>, i: int)
    requires
        alike(t, u, m),
        known(m, s),
    ensures
        strings_from(u, renamed(m, s), i) == strings_from(t, s, i),
    decreases s.len() - i,
{
    if 0 <= i < s.len() {
        lemma_text(t, u, m, s[i]);
        lemma_strings(t, u, m, s, i + 1);
    }
}

proof fn lemma_total(
    t: Tree,
    u: Tree,
    m: Map<NodeId, NodeId>,
    s: Seq<NodeId>,
    i: int,
    total: Number,
)
    requires
        alike(t, u, m),
        known(m, s),
    ensures
        total_from(u, renamed(m, s), i, total) == total_from(t, s, i, total),
    decreases s.len() - i,
{
    if 0 <= i < s.len() {
        lemma_text(t, u, m, s[i]);
        lemma_total(
            t,
            u,
            m,
            s,
            i + 1,
            sum(total, number_of_text(t.string_value(s[i]))),
        );
    }
}

proof fn lemma_concatenated(
    t: Tree,
    u: Tree,
    m: Map<NodeId, NodeId>,
    results: Seq<Evaluated>,
    i: int,
)
    requires
        alike(t, u, m),
        known_values(m, results),
    ensures
        concatenated(likes(m, results), u, i) == concatenated(results, t, i),
    decreases results.len() - i,
{
    if 0 <= i < results.len() {
        lemma_value(t, u, m, results[i]);
        lemma_concatenated(t, u, m, results, i + 1);
    }
}

proof fn lemma_numbers(
    t: Tree,
    u: Tree,
    m: Map<NodeId, NodeId>,
    results: Seq<Evaluated>,
    i: int,
)
    requires
        alike(t, u, m),
        known_values(m, results),
    ensures
        all_numbers(likes(m, results), u, i) == all_numbers(results, t, i),
    decreases results.len() - i,
{
    if 0 <= i < results.len() {
        lemma_value(t, u, m, results[i]);
        if let Ok(ValueModel::NodeSet(nodes)) = results[i] {
            lemma_strings(t, u, m, nodes, 0);
        }
        if let Ok(v) = results[i] {
            assert(numbers_of(like(m, results[i])->Ok_0, u) == numbers_of(v, t));
        }
        lemma_numbers(t, u, m, results, i + 1);
    }
}

// ---------------------------------------------------------------------------
// Comparisons
// ---------------------------------------------------------------------------

proof fn lemma_some_text(
    t: Tree,
    u: Tree,
    m: Map<NodeId, NodeId>,
    s: Seq<NodeId>,
    i: int,
    text: Seq<char>,
    differs: bool,
)
    requires
        alike(t, u, m),
        known(m, s),
    ensures
        some_text(u, renamed(m, s), i, text, differs) == some_text(t, s, i, text, differs),
    decreases s.len() - i,
{
    if 0 <= i < s.len() {
        lemma_text(t, u, m, s[i]);
        lemma_some_text(t, u, m, s, i + 1, text, differs);
    }
}

proof fn lemma_some_number(
    t: Tree,
    u: Tree,
    m: Map<NodeId, NodeId>,
    s: Seq<NodeId>,
    i: int,
    n: Number,
    differs: bool,
)
    requires
        alike(t, u, m),
        known(m, s),
    ensures
        some_number(u, renamed(m, s), i, n, differs) == some_number(t, s, i, n, differs),
    decreases s.len() - i,
{
    if 0 <= i < s.len() {
        lemma_text(t, u, m, s[i]);
        lemma_some_number(t, u, m, s, i + 1, n, differs);
    }
}

proof fn lemma_some_pair(
    t: Tree,
    u: Tree,
    m: Map<NodeId, NodeId>,
    left: Seq<NodeId>,
    i: int,
    right: Seq<NodeId>,
    differs: bool,
)
    requires
        alike(t, u, m),
        known(m, left),
        known(m, right),
    ensures
        some_pair(u, renamed(m, left), i, renamed(m, right), differs) == some_pair(
            t,
            left,
            i,
            right,
            differs,
        ),
    decreases left.len() - i,
{
    if 0 <= i < left.len() {
        lemma_text(t, u, m, left[i]);
        lemma_some_text(t, u, m, right, 0, t.string_value(left[i]), differs);
        lemma_some_pair(t, u, m, left, i + 1, right, differs);
    }
}

proof fn lemma_some_ordered(
    t: Tree,
    u: Tree,
    m: Map<NodeId, NodeId>,
    s: Seq<NodeId>,
    i: int,
    op: BinaryOp,
    n: Number,
)
    requires
        alike(t, u, m),
        known(m, s),
    ensures
        some_ordered(u, renamed(m, s), i, op, n) == some_ordered(t, s, i, op, n),
    decreases s.len() - i,
{
    if 0 <= i < s.len() {
        lemma_text(t, u, m, s[i]);
        lemma_some_ordered(t, u, m, s, i + 1, op, n);
    }
}

proof fn lemma_some_ordered_pair(
    t: Tree,
    u: Tree,
    m: Map<NodeId, NodeId>,
    left: Seq<NodeId>,
    i: int,
    right: Seq<NodeId>,
    op: BinaryOp,
)
    requires
        alike(t, u, m),
        known(m, left),
        known(m, right),
    ensures
        some_ordered_pair(u, renamed(m, left), i, renamed(m, right), op) == some_ordered_pair(
            t,
            left,
            i,
            right,
            op,
        ),
    decreases left.len() - i,
{
    if 0 <= i < left.len() {
        lemma_text(t, u, m, left[i]);
        lemma_some_ordered(
            t,
            u,
            m,
            right,
            0,
            flipped(op),
            number_of_text(t.string_value(left[i])),
        );
        lemma_some_ordered_pair(t, u, m, left, i + 1, right, op);
    }
}

proof fn lemma_combined(
    t: Tree,
    u: Tree,
    m: Map<NodeId, NodeId>,
    op: BinaryOp,
    a: Evaluated,
    b: Evaluated,
)
    requires
        alike(t, u, m),
        known_value(m, a),
        known_value(m, b),
    ensures
        combined(op, like(m, a), like(m, b), u) == combined(op, a, b, t),
        !(combined(op, a, b, t) matches Ok(ValueModel::NodeSet(s))),
{
    lemma_value(t, u, m, a);
    lemma_value(t, u, m, b);
    if let (Ok(x), Ok(y)) = (a, b) {
        let v = like(m, a)->Ok_0;
        let w = like(m, b)->Ok_0;
        assert(compared(u, v, w, false) == compared(t, x, y, false)) by {
            lemma_compared(t, u, m, x, y, false);
        }
        assert(compared(u, v, w, true) == compared(t, x, y, true)) by {
            lemma_compared(t, u, m, x, y, true);
        }
        lemma_standing(t, u, m, op, x, y);
    }
}

proof fn lemma_compared(
    t: Tree,
    u: Tree,
    m: Map<NodeId, NodeId>,
    x: ValueModel,
    y: ValueModel,
    differs: bool,
)
    requires
        alike(t, u, m),
        known_value(m, Ok(x)),
        known_value(m, Ok(y)),
    ensures
        compared(u, like(m, Ok(x))->Ok_0, like(m, Ok(y))->Ok_0, differs) == compared(
            t,
            x,
            y,
            differs,
        ),
{
    lemma_value(t, u, m, Ok(x));
    lemma_value(t, u, m, Ok(y));
    match (x, y) {
        (ValueModel::NodeSet(left), ValueModel::NodeSet(right)) => {
            lemma_some_pair(t, u, m, left, 0, right, differs);
        },
        (ValueModel::NodeSet(nodes), _) => {
            if let ValueModel::Number(n) = y {
                lemma_some_number(t, u, m, nodes, 0, n, differs);
            }
            if let ValueModel::String(s) = y {
                lemma_some_text(t, u, m, nodes, 0, s, differs);
            }
        },
        (_, ValueModel::NodeSet(nodes)) => {
            if let ValueModel::Number(n) = x {
                lemma_some_number(t, u, m, nodes, 0, n, differs);
            }
            if let ValueModel::String(s) = x {
                lemma_some_text(t, u, m, nodes, 0, s, differs);
            }
        },
        _ => {},
    }
}

proof fn lemma_standing(
    t: Tree,
    u: Tree,
    m: Map<NodeId, NodeId>,
    op: BinaryOp,
    x: ValueModel,
    y: ValueModel,
)
    requires
        alike(t, u, m),
        known_value(m, Ok(x)),
        known_value(m, Ok(y)),
    ensures
        standing(u, op, like(m, Ok(x))->Ok_0, like(m, Ok(y))->Ok_0) == standing(t, op, x, y),
{
    lemma_value(t, u, m, Ok(x));
    lemma_value(t, u, m, Ok(y));
    match (x, y) {
        (ValueModel::NodeSet(left), ValueModel::NodeSet(right)) => {
            lemma_some_ordered_pair(t, u, m, left, 0, right, op);
        },
        (ValueModel::NodeSet(nodes), _) => {
            if let Ok(n) = number_of(y, t) {
                lemma_some_ordered(t, u, m, nodes, 0, op, n);
            }
        },
        (_, ValueModel::NodeSet(nodes)) => {
            if let Ok(n) = number_of(x, t) {
                lemma_some_ordered(t, u, m, nodes, 0, flipped(op), n);
            }
        },
        _ => {},
    }
}

// ---------------------------------------------------------------------------
// Functions
// ---------------------------------------------------------------------------

/// A place in one document, in another.
pub open spec fn here_in(m: Map<NodeId, NodeId>, here: Here) -> Here {
    Here { node: m[here.node], ..here }
}

/// Whether two results read the same, each in its document.
spec fn reads_like(t: Tree, u: Tree, r: Evaluated, q: Evaluated) -> bool {
    &&& text_result(q, u) == text_result(r, t)
    &&& number_result(q, u) == number_result(r, t)
    &&& truth_result(q) == truth_result(r)
    &&& match (r, q) {
        (Err(e), Err(f)) => e == f,
        (Ok(ValueModel::NodeSet(a)), Ok(ValueModel::NodeSet(b))) => {
            &&& a.len() == b.len()
            &&& strings_from(u, b, 0) == strings_from(t, a, 0)
            &&& total_from(u, b, 0, with_sign(true, 0)) == total_from(t, a, 0, with_sign(true, 0))
            &&& a.len() > 0 ==> t.has(a[0]) && u.has(b[0]) && t.name(a[0]) == u.name(b[0])
        },
        (Ok(ValueModel::NodeSet(a)), _) => false,
        (_, Ok(ValueModel::NodeSet(b))) => false,
        (Ok(v), Ok(w)) => v == w,
        _ => false,
    }
}

proof fn lemma_reads_like(t: Tree, u: Tree, m: Map<NodeId, NodeId>, r: Evaluated)
    requires
        alike(t, u, m),
        known_value(m, r),
    ensures
        reads_like(t, u, r, like(m, r)),
{
    lemma_value(t, u, m, r);
    if let Ok(ValueModel::NodeSet(nodes)) = r {
        lemma_strings(t, u, m, nodes, 0);
        lemma_total(t, u, m, nodes, 0, with_sign(true, 0));
        if nodes.len() > 0 {
            assert(m.dom().contains(nodes[0]));
            lemma_text(t, u, m, nodes[0]);
            assert(renamed(m, nodes)[0] == m[nodes[0]]);
        }
    }
}

/// A function gives the same where its arguments read the same. One of its
/// arguments it gives only where it chooses among them.
#[verifier::spinoff_prover]
#[verifier::rlimit(80)]
proof fn lemma_applied_by_reading(
    b: Builtin,
    name: Seq<char>,
    args: Seq<ExprModel>,
    results: Seq<Evaluated>,
    given: Seq<Evaluated>,
    t: Tree,
    u: Tree,
    here: Here,
    there: Here,
    env: Surroundings,
)
    requires
        b != Builtin::If,
        given.len() == results.len(),
        results.len() > 0 ==> reads_like(t, u, results[0], given[0]),
        results.len() > 1 ==> reads_like(t, u, results[1], given[1]),
        results.len() > 2 ==> reads_like(t, u, results[2], given[2]),
        concatenated(given, u, 0) == concatenated(results, t, 0),
        all_numbers(given, u, 0) == all_numbers(results, t, 0),
        string_at(u, there.node) == string_at(t, here.node),
        t.has(here.node) && u.has(there.node) && u.name(there.node) == t.name(here.node),
        there.position == here.position,
        there.size == here.size,
        arity(b) matches Some((low, high)) ==> low <= results.len() <= high,
    ensures
        applied(b, name, args, given, u, there, env) == applied(
            b,
            name,
            args,
            results,
            t,
            here,
            env,
        ),
        !(applied(b, name, args, results, t, here, env) matches Ok(ValueModel::NodeSet(s))),
{
}

proof fn lemma_applied(
    b: Builtin,
    name: Seq<char>,
    args: Seq<ExprModel>,
    results: Seq<Evaluated>,
    t: Tree,
    u: Tree,
    m: Map<NodeId, NodeId>,
    here: Here,
    env: Surroundings,
)
    requires
        alike(t, u, m),
        known_values(m, results),
        m.dom().contains(here.node),
        arity(b) matches Some((low, high)) ==> low <= results.len() <= high,
    ensures
        applied(b, name, args, likes(m, results), u, here_in(m, here), env) == like(
            m,
            applied(b, name, args, results, t, here, env),
        ),
        known_value(m, applied(b, name, args, results, t, here, env)),
{
    lemma_text(t, u, m, here.node);
    let given = likes(m, results);
    if results.len() > 0 {
        assert(given[0] == like(m, results[0]));
        assert(known_value(m, results[0]));
        lemma_reads_like(t, u, m, results[0]);
    }
    if results.len() > 1 {
        assert(given[1] == like(m, results[1]));
        assert(known_value(m, results[1]));
        lemma_reads_like(t, u, m, results[1]);
    }
    if results.len() > 2 {
        assert(given[2] == like(m, results[2]));
        assert(known_value(m, results[2]));
        lemma_reads_like(t, u, m, results[2]);
    }
    lemma_concatenated(t, u, m, results, 0);
    lemma_numbers(t, u, m, results, 0);
    if b != Builtin::If {
        lemma_applied_by_reading(
            b,
            name,
            args,
            results,
            given,
            t,
            u,
            here,
            here_in(m, here),
            env,
        );
    }
}

proof fn lemma_called(
    name: Seq<char>,
    args: Seq<ExprModel>,
    results: Seq<Evaluated>,
    t: Tree,
    u: Tree,
    m: Map<NodeId, NodeId>,
    here: Here,
    env: Surroundings,
)
    requires
        alike(t, u, m),
        known_values(m, results),
        m.dom().contains(here.node),
    ensures
        called(name, args, likes(m, results), u, here_in(m, here), env) == like(
            m,
            called(name, args, results, t, here, env),
        ),
        known_value(m, called(name, args, results, t, here, env)),
{
    if let Some(b) = builtin(name) {
        match arity(b) {
            Some((low, high)) => {
                if low <= results.len() <= high {
                    lemma_applied(b, name, args, results, t, u, m, here, env);
                }
            },
            None => lemma_applied(b, name, args, results, t, u, m, here, env),
        }
    }
}

// ---------------------------------------------------------------------------
// Expressions
// ---------------------------------------------------------------------------

/// Whether surroundings hold no lookup tables of their own.
pub open spec fn has_no_tables(env: Surroundings) -> bool {
    forall|id: Seq<char>| (#[trigger] (env.secondary)(id)) is None
}

proof fn lemma_first_table(
    t: Tree,
    u: Tree,
    m: Map<NodeId, NodeId>,
    s: Seq<NodeId>,
    id: Seq<char>,
)
    requires
        alike(t, u, m),
        known(m, s),
    ensures
        u.first_table(renamed(m, s), id) == match t.first_table(s, id) {
            Some(n) => Some(m[n]),
            None => None,
        },
        t.first_table(s, id) matches Some(n) ==> m.dom().contains(n),
    decreases s.len(),
{
    if s.len() > 0 {
        let n = s[0];
        assert(m.dom().contains(n));
        assert(alike_at(t, u, m, n));
        let a = t.attributes(n);
        let b = u.attributes(m[n]);
        assert forall|i: int| 0 <= i < a.len() implies u.name(#[trigger] b[i]) == t.name(a[i])
            && u.value(b[i]) == t.value(a[i]) by {
            assert(m.dom().contains(a[i]));
            assert(alike_at(t, u, m, a[i]));
        }
        assert(u.is_table(m[n], id) == t.is_table(n, id)) by {
            if t.is_table(n, id) {
                let i = choose|i: int|
                    0 <= i < a.len() && t.name(#[trigger] a[i]) == "id"@ && t.value(a[i]) == id;
                assert(u.name(b[i]) == "id"@);
            }
            if u.is_table(m[n], id) {
                let i = choose|i: int|
                    0 <= i < b.len() && u.name(#[trigger] b[i]) == "id"@ && u.value(b[i]) == id;
                assert(t.name(a[i]) == "id"@);
            }
        }
        let rest = s.skip(1);
        assert forall|i: int| 0 <= i < rest.len() implies m.dom().contains(#[trigger] rest[i]) by {
            assert(rest[i] == s[i + 1]);
        }
        lemma_first_table(t, u, m, rest, id);
        assert(renamed(m, s).skip(1) =~= renamed(m, rest));
    } else {
        assert(renamed(m, s).len() == 0);
    }
}

proof fn lemma_table(t: Tree, u: Tree, m: Map<NodeId, NodeId>, id: Seq<char>)
    requires
        alike(t, u, m),
    ensures
        u.instance_named(id) == match t.instance_named(id) {
            Some(n) => Some(m[n]),
            None => None,
        },
        t.instance_named(id) matches Some(n) ==> m.dom().contains(n),
{
    let root = t.root->0;
    lemma_descendants(t, u, m, root);
    assert(renamed(m, seq![root]) =~= seq![m[root]]);
    lemma_joined(m, seq![root], t.descendants(root));
    lemma_first_table(t, u, m, seq![root] + t.descendants(root), id);
}

proof fn lemma_kept(
    nodes: Seq<NodeId>,
    predicate: ExprModel,
    i: int,
    t: Tree,
    u: Tree,
    m: Map<NodeId, NodeId>,
    env: Surroundings,
)
    requires
        alike(t, u, m),
        has_no_tables(env),
        known(m, nodes),
        0 <= i,
    ensures
        known_found(m, kept(nodes, predicate, i, t, env)),
        kept(renamed(m, nodes), predicate, i, u, env) == renamed_found(
            m,
            kept(nodes, predicate, i, t, env),
        ),
    decreases predicate, 1 + nodes.len() - i,
{
    if i < nodes.len() {
        let here = Here { node: nodes[i], position: (i + 1) as nat, size: nodes.len() };
        assert(m.dom().contains(nodes[i]));
        lemma_eval(predicate, t, u, m, here, env);
        let there = Here {
            node: renamed(m, nodes)[i],
            position: (i + 1) as nat,
            size: renamed(m, nodes).len(),
        };
        assert(there == here_in(m, here));
        lemma_kept(nodes, predicate, i + 1, t, u, m, env);
        if let Ok(v) = eval(predicate, t, here, env) {
            lemma_value(t, u, m, Ok(v));
            let w = eval(predicate, u, there, env)->Ok_0;
            assert(keeps(w, i) == keeps(v, i));
            assert(renamed(m, seq![nodes[i]]) =~= seq![m[nodes[i]]]);
            if let Ok(rest) = kept(nodes, predicate, i + 1, t, env) {
                lemma_joined(m, seq![nodes[i]], rest);
            }
        }
    } else {
        assert(renamed(m, Seq::empty()) =~= Seq::<NodeId>::empty());
    }
}

proof fn lemma_filtered(
    nodes: Seq<NodeId>,
    predicates: Seq<ExprModel>,
    k: int,
    t: Tree,
    u: Tree,
    m: Map<NodeId, NodeId>,
    env: Surroundings,
)
    requires
        alike(t, u, m),
        has_no_tables(env),
        known(m, nodes),
        0 <= k,
    ensures
        known_found(m, filtered(nodes, predicates, k, t, env)),
        filtered(renamed(m, nodes), predicates, k, u, env) == renamed_found(
            m,
            filtered(nodes, predicates, k, t, env),
        ),
    decreases predicates, predicates.len() - k,
{
    if k < predicates.len() {
        assert(decreases_to!(predicates => predicates[k]));
        lemma_kept(nodes, predicates[k], 0, t, u, m, env);
        if let Ok(next) = kept(nodes, predicates[k], 0, t, env) {
            lemma_filtered(next, predicates, k + 1, t, u, m, env);
        }
    }
}

proof fn lemma_stepped(
    nodes: Seq<NodeId>,
    step: StepModel,
    i: int,
    t: Tree,
    u: Tree,
    m: Map<NodeId, NodeId>,
    env: Surroundings,
)
    requires
        alike(t, u, m),
        has_no_tables(env),
        known(m, nodes),
        0 <= i,
    ensures
        known_found(m, stepped(nodes, step, i, t, env)),
        stepped(renamed(m, nodes), step, i, u, env) == renamed_found(
            m,
            stepped(nodes, step, i, t, env),
        ),
    decreases step, nodes.len() - i,
{
    if i < nodes.len() {
        let n = nodes[i];
        assert(m.dom().contains(n));
        lemma_axis(t, u, m, n, step.axis);
        let all = axis_nodes(t, n, step.axis);
        lemma_named(t, u, m, all, step.test, 0);
        lemma_stepped(nodes, step, i + 1, t, u, m, env);
        if let Ok(matching) = named_from(t, all, step.test, 0) {
            lemma_filtered(matching, step.predicates, 0, t, u, m, env);
            if let Ok(left) = filtered(matching, step.predicates, 0, t, env) {
                if let Ok(rest) = stepped(nodes, step, i + 1, t, env) {
                    lemma_joined(m, left, rest);
                }
            }
        }
    } else {
        assert(renamed(m, Seq::empty()) =~= Seq::<NodeId>::empty());
    }
}

proof fn lemma_walked(
    nodes: Seq<NodeId>,
    steps: Seq<StepModel>,
    k: int,
    t: Tree,
    u: Tree,
    m: Map<NodeId, NodeId>,
    env: Surroundings,
)
    requires
        alike(t, u, m),
        has_no_tables(env),
        known(m, nodes),
        0 <= k,
    ensures
        known_found(m, walked(nodes, steps, k, t, env)),
        walked(renamed(m, nodes), steps, k, u, env) == renamed_found(
            m,
            walked(nodes, steps, k, t, env),
        ),
    decreases steps, steps.len() - k,
{
    if k < steps.len() {
        assert(decreases_to!(steps => steps[k]));
        lemma_stepped(nodes, steps[k], 0, t, u, m, env);
        if let Ok(next) = stepped(nodes, steps[k], 0, t, env) {
            lemma_unique(t, u, m, next);
            lemma_walked(sorted_unique(t, next), steps, k + 1, t, u, m, env);
        }
    }
}

proof fn lemma_path(
    absolute: bool,
    steps: Seq<StepModel>,
    t: Tree,
    u: Tree,
    m: Map<NodeId, NodeId>,
    here: Here,
    env: Surroundings,
)
    requires
        alike(t, u, m),
        has_no_tables(env),
        m.dom().contains(here.node),
    ensures
        ({
            let e = ExprModel::Path { absolute, steps };
            &&& known_value(m, eval(e, t, here, env))
            &&& eval(e, u, here_in(m, here), env) == like(m, eval(e, t, here, env))
        }),
    decreases steps, steps.len() + 1,
{
    if !absolute {
        assert(renamed(m, seq![here.node]) =~= seq![m[here.node]]);
        assert(known(m, seq![here.node]));
        lemma_walked(seq![here.node], steps, 0, t, u, m, env);
    } else {
        let root = t.root->0;
        assert(alike_at(t, u, m, root));
        assert(renamed(m, seq![root]) =~= seq![m[root]]);
        assert(known(m, seq![root]));
        if names_root(steps, t, root) {
            assert(decreases_to!(steps => steps[0]));
            lemma_filtered(seq![root], steps[0].predicates, 0, t, u, m, env);
            if let Ok(left) = filtered(seq![root], steps[0].predicates, 0, t, env) {
                lemma_walked(left, steps, 1, t, u, m, env);
            }
        } else {
            lemma_walked(seq![root], steps, 0, t, u, m, env);
        }
    }
}

/// The nodes that a path base names, in one document and in another.
spec fn base_nodes(base: ExprModel, t: Tree, here: Here, env: Surroundings) -> Result<
    (Tree, Seq<NodeId>),
    Seq<char>,
> {
    match base {
        ExprModel::Function { name, args } => if name == "instance"@ {
            if args.len() == 0 {
                Err("instance() needs an id"@)
            } else {
                match table_id(args, t, here, env) {
                    Err(e) => Err(e),
                    Ok(id) => table_of(id, t, env),
                }
            }
        } else {
            match node_set(eval(base, t, here, env), "a path base"@) {
                Err(e) => Err(e),
                Ok(nodes) => Ok((t, nodes)),
            }
        },
        _ => match node_set(eval(base, t, here, env), "a path base"@) {
            Err(e) => Err(e),
            Ok(nodes) => Ok((t, nodes)),
        },
    }
}

proof fn lemma_results(
    args: Seq<ExprModel>,
    t: Tree,
    u: Tree,
    m: Map<NodeId, NodeId>,
    here: Here,
    env: Surroundings,
)
    requires
        alike(t, u, m),
        has_no_tables(env),
        m.dom().contains(here.node),
    ensures
        known_values(m, results(args, t, here, env)),
        results(args, u, here_in(m, here), env) == likes(m, results(args, t, here, env)),
    decreases args, 1nat,
{
    let r = results(args, t, here, env);
    let q = results(args, u, here_in(m, here), env);
    assert forall|i: int| 0 <= i < args.len() implies known_value(m, #[trigger] r[i]) && q[i]
        == like(m, r[i]) by {
        assert(decreases_to!(args => args[i]));
        lemma_eval(args[i], t, u, m, here, env);
    }
    assert(q =~= likes(m, r));
}

proof fn lemma_eval(
    e: ExprModel,
    t: Tree,
    u: Tree,
    m: Map<NodeId, NodeId>,
    here: Here,
    env: Surroundings,
)
    requires
        alike(t, u, m),
        has_no_tables(env),
        m.dom().contains(here.node),
    ensures
        known_value(m, eval(e, t, here, env)),
        eval(e, u, here_in(m, here), env) == like(m, eval(e, t, here, env)),
    decreases e, 0nat,
{
    let there = here_in(m, here);
    match e {
        ExprModel::Negate(inner) => {
            lemma_eval(*inner, t, u, m, here, env);
            lemma_value(t, u, m, eval(*inner, t, here, env));
        },
        ExprModel::Union(left, right) => {
            lemma_eval(*left, t, u, m, here, env);
            lemma_eval(*right, t, u, m, here, env);
            lemma_value(t, u, m, eval(*left, t, here, env));
            lemma_value(t, u, m, eval(*right, t, here, env));
            if let Ok(ValueModel::NodeSet(a)) = eval(*left, t, here, env) {
                if let Ok(ValueModel::NodeSet(b)) = eval(*right, t, here, env) {
                    lemma_joined(m, a, b);
                    lemma_unique(t, u, m, a + b);
                }
            }
        },
        ExprModel::Binary { op, left, right } => {
            lemma_eval(*left, t, u, m, here, env);
            lemma_eval(*right, t, u, m, here, env);
            lemma_combined(
                t,
                u,
                m,
                op,
                eval(*left, t, here, env),
                eval(*right, t, here, env),
            );
        },
        ExprModel::Path { absolute, steps } => {
            lemma_path(absolute, steps, t, u, m, here, env);
        },
        ExprModel::Filter { base, predicates, steps } => {
            lemma_base(*base, t, u, m, here, env);
            if let Ok((target, nodes)) = base_nodes(*base, t, here, env) {
                lemma_filtered(nodes, predicates, 0, t, u, m, env);
                if let Ok(left) = filtered(nodes, predicates, 0, t, env) {
                    lemma_walked(left, steps, 0, t, u, m, env);
                }
            }
        },
        ExprModel::Function { name, args } => {
            lemma_results(args, t, u, m, here, env);
            lemma_called(name, args, results(args, t, here, env), t, u, m, here, env);
        },
        _ => {},
    }
}

proof fn lemma_base(
    base: ExprModel,
    t: Tree,
    u: Tree,
    m: Map<NodeId, NodeId>,
    here: Here,
    env: Surroundings,
)
    requires
        alike(t, u, m),
        has_no_tables(env),
        m.dom().contains(here.node),
    ensures
        match base_nodes(base, t, here, env) {
            Ok((target, nodes)) => target == t && known(m, nodes) && base_nodes(
                base,
                u,
                here_in(m, here),
                env,
            ) == Ok::<(Tree, Seq<NodeId>), Seq<char>>((u, renamed(m, nodes))),
            Err(e) => base_nodes(base, u, here_in(m, here), env) == Err::<
                (Tree, Seq<NodeId>),
                Seq<char>,
            >(e),
        },
    decreases base, 1nat,
{
    let there = here_in(m, here);
    lemma_eval(base, t, u, m, here, env);
    lemma_value(t, u, m, eval(base, t, here, env));
    if let ExprModel::Function { name, args } = base {
        if name == "instance"@ && args.len() > 0 {
            assert(decreases_to!(args => args[0]));
            lemma_eval(args[0], t, u, m, here, env);
            lemma_value(t, u, m, eval(args[0], t, here, env));
            assert(table_id(args, u, there, env) == table_id(args, t, here, env));
            if let Ok(id) = table_id(args, t, here, env) {
                lemma_table(t, u, m, id);
                assert((env.secondary)(id) is None);
                if let Some(n) = t.instance_named(id) {
                    assert(renamed(m, seq![n]) =~= seq![m[n]]);
                    assert(known(m, seq![n]));
                }
            }
        }
    }
}

/// An expression comes to the same in documents that are alike: to the same
/// text, number or truth, to the nodes that are the likes of each other, or
/// to the same refusal.
pub proof fn law_evaluation_is_the_same_in_likes(
    e: ExprModel,
    t: Tree,
    u: Tree,
    m: Map<NodeId, NodeId>,
    here: Here,
    env: Surroundings,
)
    requires
        alike(t, u, m),
        has_no_tables(env),
        m.dom().contains(here.node),
    ensures
        known_value(m, eval(e, t, here, env)),
        eval(e, u, here_in(m, here), env) == like(m, eval(e, t, here, env)),
{
    lemma_eval(e, t, u, m, here, env);
}

} // verus!
