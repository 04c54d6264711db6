//! Evaluation in documents that differ in values alone.

use crate::eval::comparison::{
    compared, flipped, set_matches, some_number, some_ordered, some_ordered_pair, some_pair,
    some_text, standing,
};
use crate::eval::nodes::named_from;
use crate::eval::value::{number_of, string_at, text_of, ValueModel};
use crate::eval::{Here, Surroundings};
use crate::functions::{
    all_numbers, applied, arity, builtin, called, concatenated, number_result, numbers_of,
    strings_from, text_result, total_from, Builtin, Evaluated,
};
use crate::number::Number;
use crate::parser::ast::{BinaryOp, ExprModel, TestModel};
use crate::tree::edit::place_after;
use crate::tree::{NodeId, NodeModel, Tree};
use vstd::prelude::*;

verus! {

/// Whether two trees differ in values alone.
pub open spec fn same_shape(t: Tree, u: Tree) -> bool {
    &&& t.nodes.len() == u.nodes.len()
    &&& t.root == u.root
    &&& t.order == u.order
    &&& forall|i: int|
        0 <= i < t.nodes.len() ==> (#[trigger] u.nodes[i]) == (NodeModel {
            value: u.nodes[i].value,
            ..t.nodes[i]
        })
}

proof fn lemma_put_same(t: Tree, u: Tree, s: Seq<NodeId>, n: NodeId)
    requires
        t.order == u.order,
    ensures
        t.put(s, n) == u.put(s, n),
    decreases s.len(),
{
    if s.len() > 0 {
        lemma_put_same(t, u, s.drop_last(), n);
    }
}

pub proof fn lemma_sorted_same(t: Tree, u: Tree, s: Seq<NodeId>)
    requires
        t.order == u.order,
    ensures
        t.sorted(s) == u.sorted(s),
    decreases s.len(),
{
    if s.len() > 0 {
        lemma_sorted_same(t, u, s.drop_last());
        lemma_put_same(t, u, t.sorted(s.drop_last()), s.last());
    }
}

pub proof fn lemma_named_same(t: Tree, u: Tree, s: Seq<NodeId>, test: TestModel, i: int)
    requires
        same_shape(t, u),
    ensures
        named_from(t, s, test, i) == named_from(u, s, test, i),
    decreases s.len() - i,
{
    if 0 <= i < s.len() {
        lemma_named_same(t, u, s, test, i + 1);
        if t.has(s[i]) {
            assert(u.nodes[s[i].0 as int].name == t.nodes[s[i].0 as int].name);
        }
    }
}

/// Whether a node holds the same in two documents.
pub open spec fn holds_same(t: Tree, u: Tree, n: NodeId) -> bool {
    string_at(t, n) == string_at(u, n)
}

pub open spec fn all_hold_same(t: Tree, u: Tree, s: Seq<NodeId>) -> bool {
    forall|i: int| 0 <= i < s.len() ==> holds_same(t, u, #[trigger] s[i])
}

/// Whether what a value reads as is the same in two documents.
pub open spec fn reads_same(t: Tree, u: Tree, r: Evaluated) -> bool {
    match r {
        Ok(ValueModel::NodeSet(nodes)) => all_hold_same(t, u, nodes),
        _ => true,
    }
}

pub open spec fn all_read_same(t: Tree, u: Tree, s: Seq<Evaluated>) -> bool {
    forall|i: int| 0 <= i < s.len() ==> reads_same(t, u, #[trigger] s[i])
}

// ---------------------------------------------------------------------------
// Walking
// ---------------------------------------------------------------------------

proof fn lemma_visit_same(t: Tree, u: Tree, n: NodeId)
    requires
        t.wf(),
        u.wf(),
        same_shape(t, u),
        t.has(n),
    ensures
        t.visit(n, false) == u.visit(n, false),
    decreases t.height(n), t.children(n).len() + 1,
{
    lemma_below_same(t, u, n, 0);
}

pub proof fn lemma_below_same(t: Tree, u: Tree, n: NodeId, i: int)
    requires
        t.wf(),
        u.wf(),
        same_shape(t, u),
        t.has(n),
        0 <= i,
    ensures
        t.below(n, i, false) == u.below(n, i, false),
    decreases t.height(n), t.children(n).len() - i,
{
    assert(u.nodes[n.0 as int].children == t.nodes[n.0 as int].children);
    if i < t.children(n).len() {
        t.lemma_ranking();
        let child = t.children(n)[i];
        assert(t.nodes[n.0 as int].children[i] == child);
        lemma_visit_same(t, u, child);
        lemma_below_same(t, u, n, i + 1);
    }
}

proof fn lemma_values_same(t: Tree, u: Tree, s: Seq<NodeId>)
    requires
        forall|i: int| 0 <= i < s.len() ==> t.value(#[trigger] s[i]) == u.value(s[i]),
    ensures
        t.values(s) == u.values(s),
    decreases s.len(),
{
    if s.len() > 0 {
        let d = s.drop_last();
        assert forall|i: int| 0 <= i < d.len() implies t.value(#[trigger] d[i]) == u.value(
            d[i],
        ) by {
            assert(d[i] == s[i]);
        }
        lemma_values_same(t, u, d);
        assert(t.value(s[s.len() - 1]) == u.value(s[s.len() - 1]));
    }
}

/// A node holds what it held where a value changes that is neither its own
/// nor below it.
pub proof fn lemma_value_elsewhere(t: Tree, m: NodeId, value: Seq<char>, n: NodeId)
    requires
        t.wf(),
        t.has(m),
        t.has(n),
        n != m,
        !t.descendants(n).contains(m),
    ensures
        holds_same(t, t.with_value(m, value), n),
{
    let u = t.with_value(m, value);
    t.lemma_with_value_wf(m, value);
    assert(same_shape(t, u));
    lemma_below_same(t, u, n, 0);
    lemma_sorted_same(t, u, t.below(n, 0, false));
    let s = t.descendants(n);
    t.lemma_descendants_in(n);
    assert forall|i: int| 0 <= i < s.len() implies t.value(#[trigger] s[i]) == u.value(s[i]) by {
        assert(s.contains(s[i]));
        assert(t.has(s[i]));
    }
    lemma_values_same(t, u, s);
}

// ---------------------------------------------------------------------------
// Values
// ---------------------------------------------------------------------------

proof fn lemma_text_same(t: Tree, u: Tree, r: Evaluated)
    requires
        reads_same(t, u, r),
    ensures
        text_result(r, t) == text_result(r, u),
        number_result(r, t) == number_result(r, u),
        r matches Ok(v) ==> text_of(v, t) == text_of(v, u) && number_of(v, t) == number_of(v, u),
{
    if let Ok(ValueModel::NodeSet(nodes)) = r {
        if nodes.len() > 0 {
            assert(holds_same(t, u, nodes[0]));
        }
    }
}

proof fn lemma_strings_same(t: Tree, u: Tree, nodes: Seq<NodeId>, i: int)
    requires
        all_hold_same(t, u, nodes),
    ensures
        strings_from(t, nodes, i) == strings_from(u, nodes, i),
    decreases nodes.len() - i,
{
    if 0 <= i < nodes.len() {
        assert(holds_same(t, u, nodes[i]));
        lemma_strings_same(t, u, nodes, i + 1);
    }
}

proof fn lemma_total_same(t: Tree, u: Tree, nodes: Seq<NodeId>, i: int, total: Number)
    requires
        all_hold_same(t, u, nodes),
    ensures
        total_from(t, nodes, i, total) == total_from(u, nodes, i, total),
    decreases nodes.len() - i,
{
    if 0 <= i < nodes.len() {
        assert(holds_same(t, u, nodes[i]));
        if let Ok(s) = string_at(t, nodes[i]) {
            lemma_total_same(
                t,
                u,
                nodes,
                i + 1,
                crate::number::sum(total, crate::eval::value::number_of_text(s)),
            );
        }
    }
}

proof fn lemma_concatenated_same(t: Tree, u: Tree, results: Seq<Evaluated>, i: int)
    requires
        all_read_same(t, u, results),
    ensures
        concatenated(results, t, i) == concatenated(results, u, i),
    decreases results.len() - i,
{
    if 0 <= i < results.len() {
        lemma_text_same(t, u, results[i]);
        lemma_concatenated_same(t, u, results, i + 1);
    }
}

proof fn lemma_numbers_same(t: Tree, u: Tree, results: Seq<Evaluated>, i: int)
    requires
        all_read_same(t, u, results),
    ensures
        all_numbers(results, t, i) == all_numbers(results, u, i),
    decreases results.len() - i,
{
    if 0 <= i < results.len() {
        lemma_text_same(t, u, results[i]);
        if let Ok(ValueModel::NodeSet(nodes)) = results[i] {
            lemma_strings_same(t, u, nodes, 0);
        }
        if let Ok(v) = results[i] {
            assert(numbers_of(v, t) == numbers_of(v, u));
        }
        lemma_numbers_same(t, u, results, i + 1);
    }
}

// ---------------------------------------------------------------------------
// Comparisons
// ---------------------------------------------------------------------------

proof fn lemma_some_text_same(
    t: Tree,
    u: Tree,
    nodes: Seq<NodeId>,
    i: int,
    text: Seq<char>,
    differs: bool,
)
    requires
        all_hold_same(t, u, nodes),
    ensures
        some_text(t, nodes, i, text, differs) == some_text(u, nodes, i, text, differs),
    decreases nodes.len() - i,
{
    if 0 <= i < nodes.len() {
        assert(holds_same(t, u, nodes[i]));
        lemma_some_text_same(t, u, nodes, i + 1, text, differs);
    }
}

proof fn lemma_some_number_same(
    t: Tree,
    u: Tree,
    nodes: Seq<NodeId>,
    i: int,
    n: Number,
    differs: bool,
)
    requires
        all_hold_same(t, u, nodes),
    ensures
        some_number(t, nodes, i, n, differs) == some_number(u, nodes, i, n, differs),
    decreases nodes.len() - i,
{
    if 0 <= i < nodes.len() {
        assert(holds_same(t, u, nodes[i]));
        lemma_some_number_same(t, u, nodes, i + 1, n, differs);
    }
}

proof fn lemma_some_pair_same(
    t: Tree,
    u: Tree,
    left: Seq<NodeId>,
    i: int,
    right: Seq<NodeId>,
    differs: bool,
)
    requires
        all_hold_same(t, u, left),
        all_hold_same(t, u, right),
    ensures
        some_pair(t, left, i, right, differs) == some_pair(u, left, i, right, differs),
    decreases left.len() - i,
{
    if 0 <= i < left.len() {
        assert(holds_same(t, u, left[i]));
        if let Ok(s) = string_at(t, left[i]) {
            lemma_some_text_same(t, u, right, 0, s, differs);
        }
        lemma_some_pair_same(t, u, left, i + 1, right, differs);
    }
}

proof fn lemma_set_same(t: Tree, u: Tree, nodes: Seq<NodeId>, other: ValueModel, differs: bool)
    requires
        all_hold_same(t, u, nodes),
        !(other is NodeSet),
    ensures
        set_matches(t, nodes, other, differs) == set_matches(u, nodes, other, differs),
{
    match other {
        ValueModel::Number(n) => lemma_some_number_same(t, u, nodes, 0, n, differs),
        ValueModel::String(s) => lemma_some_text_same(t, u, nodes, 0, s, differs),
        _ => {},
    }
}

pub proof fn lemma_compared_same(t: Tree, u: Tree, a: ValueModel, b: ValueModel, differs: bool)
    requires
        reads_same(t, u, Ok(a)),
        reads_same(t, u, Ok(b)),
    ensures
        compared(t, a, b, differs) == compared(u, a, b, differs),
{
    match (a, b) {
        (ValueModel::NodeSet(left), ValueModel::NodeSet(right)) => {
            lemma_some_pair_same(t, u, left, 0, right, differs);
        },
        (ValueModel::NodeSet(nodes), _) => lemma_set_same(t, u, nodes, b, differs),
        (_, ValueModel::NodeSet(nodes)) => lemma_set_same(t, u, nodes, a, differs),
        _ => {
            lemma_text_same(t, u, Ok(a));
            lemma_text_same(t, u, Ok(b));
        },
    }
}

proof fn lemma_some_ordered_same(
    t: Tree,
    u: Tree,
    nodes: Seq<NodeId>,
    i: int,
    op: BinaryOp,
    n: Number,
)
    requires
        all_hold_same(t, u, nodes),
    ensures
        some_ordered(t, nodes, i, op, n) == some_ordered(u, nodes, i, op, n),
    decreases nodes.len() - i,
{
    if 0 <= i < nodes.len() {
        assert(holds_same(t, u, nodes[i]));
        lemma_some_ordered_same(t, u, nodes, i + 1, op, n);
    }
}

proof fn lemma_some_ordered_pair_same(
    t: Tree,
    u: Tree,
    left: Seq<NodeId>,
    i: int,
    right: Seq<NodeId>,
    op: BinaryOp,
)
    requires
        all_hold_same(t, u, left),
        all_hold_same(t, u, right),
    ensures
        some_ordered_pair(t, left, i, right, op) == some_ordered_pair(u, left, i, right, op),
    decreases left.len() - i,
{
    if 0 <= i < left.len() {
        assert(holds_same(t, u, left[i]));
        if let Ok(s) = string_at(t, left[i]) {
            lemma_some_ordered_same(
                t,
                u,
                right,
                0,
                flipped(op),
                crate::eval::value::number_of_text(s),
            );
        }
        lemma_some_ordered_pair_same(t, u, left, i + 1, right, op);
    }
}

pub proof fn lemma_standing_same(t: Tree, u: Tree, op: BinaryOp, a: ValueModel, b: ValueModel)
    requires
        reads_same(t, u, Ok(a)),
        reads_same(t, u, Ok(b)),
    ensures
        standing(t, op, a, b) == standing(u, op, a, b),
{
    lemma_text_same(t, u, Ok(a));
    lemma_text_same(t, u, Ok(b));
    match (a, b) {
        (ValueModel::NodeSet(left), ValueModel::NodeSet(right)) => {
            lemma_some_ordered_pair_same(t, u, left, 0, right, op);
        },
        (ValueModel::NodeSet(nodes), _) => {
            if let Ok(n) = number_of(b, t) {
                lemma_some_ordered_same(t, u, nodes, 0, op, n);
            }
        },
        (_, ValueModel::NodeSet(nodes)) => {
            if let Ok(n) = number_of(a, t) {
                lemma_some_ordered_same(t, u, nodes, 0, flipped(op), n);
            }
        },
        _ => {},
    }
}

// ---------------------------------------------------------------------------
// Functions
// ---------------------------------------------------------------------------

/// Whether a function looks at nothing but its arguments, the names of nodes
/// and their places.
pub open spec fn looks_at_arguments(b: Builtin, count: nat) -> bool {
    match b {
        Builtin::Once => false,
        Builtin::Text
        | Builtin::StringLength
        | Builtin::NormalizeSpace
        | Builtin::Number => count > 0,
        _ => true,
    }
}

proof fn lemma_applied_same(
    b: Builtin,
    name: Seq<char>,
    args: Seq<ExprModel>,
    results: Seq<Evaluated>,
    t: Tree,
    u: Tree,
    here: Here,
    env: Surroundings,
)
    requires
        same_shape(t, u),
        all_read_same(t, u, results),
        looks_at_arguments(b, results.len()),
        arity(b) matches Some((low, high)) ==> low <= results.len() <= high,
    ensures
        applied(b, name, args, results, t, here, env) == applied(
            b,
            name,
            args,
            results,
            u,
            here,
            env,
        ),
        reads_same(t, u, applied(b, name, args, results, t, here, env)),
{
    if results.len() > 0 {
        lemma_text_same(t, u, results[0]);
        if let Ok(ValueModel::NodeSet(nodes)) = results[0] {
            lemma_strings_same(t, u, nodes, 0);
            lemma_total_same(t, u, nodes, 0, crate::number::with_sign(true, 0));
            if nodes.len() > 0 && t.has(nodes[0]) {
                assert(u.nodes[nodes[0].0 as int].name == t.nodes[nodes[0].0 as int].name);
            }
        }
    }
    if results.len() > 1 {
        lemma_text_same(t, u, results[1]);
        if let Ok(ValueModel::NodeSet(nodes)) = results[1] {
            lemma_strings_same(t, u, nodes, 0);
        }
    }
    if results.len() > 2 {
        lemma_text_same(t, u, results[2]);
    }
    lemma_concatenated_same(t, u, results, 0);
    lemma_numbers_same(t, u, results, 0);
    if t.has(here.node) {
        assert(u.nodes[here.node.0 as int].name == t.nodes[here.node.0 as int].name);
    }
}

/// A call that looks at its arguments gives the same where they come to the
/// same and read as the same.
pub proof fn lemma_called_same(
    name: Seq<char>,
    args: Seq<ExprModel>,
    results: Seq<Evaluated>,
    t: Tree,
    u: Tree,
    here: Here,
    env: Surroundings,
)
    requires
        same_shape(t, u),
        all_read_same(t, u, results),
        builtin(name) matches Some(b) ==> looks_at_arguments(b, results.len()),
    ensures
        called(name, args, results, t, here, env) == called(name, args, results, u, here, env),
        reads_same(t, u, called(name, args, results, t, here, env)),
{
    if let Some(b) = builtin(name) {
        match arity(b) {
            Some((low, high)) => {
                if low <= results.len() <= high {
                    lemma_applied_same(b, name, args, results, t, u, here, env);
                }
            },
            None => lemma_applied_same(b, name, args, results, t, u, here, env),
        }
    }
}

// ---------------------------------------------------------------------------
// Addresses
// ---------------------------------------------------------------------------

/// What is above a node does not hang on values.
proof fn lemma_ancestors_same(t: Tree, u: Tree, n: NodeId)
    requires
        t.wf(),
        u.wf(),
        same_shape(t, u),
        t.has(n),
    ensures
        u.ancestors(n) == t.ancestors(n),
    decreases t.ranking().bound - t.height(n),
{
    assert(u.nodes[n.0 as int].parent == t.nodes[n.0 as int].parent);
    if let Some(p) = t.parent(n) {
        t.lemma_parent(n);
        lemma_ancestors_same(t, u, p);
    }
}

proof fn lemma_named_among_same(t: Tree, u: Tree, s: Seq<NodeId>, name: Seq<char>, k: int)
    requires
        same_shape(t, u),
        t.all_in(s),
    ensures
        u.named_among(s, name, k) == t.named_among(s, name, k),
    decreases k,
{
    if 0 < k <= s.len() {
        lemma_named_among_same(t, u, s, name, k - 1);
        assert(t.has(s[k - 1]));
        assert(u.nodes[s[k - 1].0 as int].name == t.nodes[s[k - 1].0 as int].name);
    }
}

/// Where a node is does not hang on values.
pub proof fn lemma_address_same(t: Tree, u: Tree, n: NodeId)
    requires
        t.wf(),
        u.wf(),
        same_shape(t, u),
        t.has(n),
    ensures
        u.address_of(n) == t.address_of(n),
{
    lemma_ancestors_same(t, u, n);
    t.lemma_ancestors_in(n);
    let up = (seq![n] + t.ancestors(n)).reverse();
    assert forall|i: int| 0 <= i < up.len() implies #[trigger] u.step_text(up[i]) == t.step_text(
        up[i],
    ) by {
        let m = up[i];
        let k = up.len() - 1 - i;
        assert(m == (seq![n] + t.ancestors(n))[k]);
        if k > 0 {
            assert(t.has(t.ancestors(n)[k - 1]));
        }
        assert(u.nodes[m.0 as int].parent == t.nodes[m.0 as int].parent);
        assert(u.nodes[m.0 as int].name == t.nodes[m.0 as int].name);
        if let Some(p) = t.parent(m) {
            t.lemma_parent(m);
            assert(u.nodes[p.0 as int].children == t.nodes[p.0 as int].children);
            let all = t.children(p);
            t.lemma_children_in(p);
            lemma_named_among_same(t, u, all, t.name(m), all.len() as int);
            lemma_named_among_same(t, u, all, t.name(m), place_after(all, m));
        }
    }
    assert(u.step_texts(up) == t.step_texts(up));
}

} // verus!
