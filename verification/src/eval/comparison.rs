//! Comparing values.
//!
//! Comparison against a node-set is existential, and `!=` is **not** the
//! negation of `=`.
//!
//! Both are "does some node satisfy this", so against ages 34, 7 and 19,
//! `age = 7` and `age != 7` are true at the same time. Taking `!=` for
//! `not(=)` passes any test written with a single-node set, and then
//! silently inverts the meaning of every multi-node comparison a form makes,
//! which is most guards over a repeat.

use crate::eval::value::{
    number_of, number_of_text, string_at, string_of_node, string_to_number, text_of, truth, Value,
    ValueModel,
};
use crate::number::{equal, less, less_or_same, Number};
use crate::parser::ast::BinaryOp;
use crate::text::same;
use crate::tree::{Instance, NodeId, Tree};
use vstd::prelude::*;

verus! {

/// Whether the text of some node, from the one at `i` on, is `text`, or with
/// `differs` is another.
pub open spec fn some_text(t: Tree, nodes: Seq<NodeId>, i: int, text: Seq<char>, differs: bool) -> Result<
    bool,
    Seq<char>,
>
    decreases nodes.len() - i,
{
    if i < 0 || i >= nodes.len() {
        Ok(false)
    } else {
        match string_at(t, nodes[i]) {
            Err(e) => Err(e),
            Ok(s) => if (s == text) != differs {
                Ok(true)
            } else {
                some_text(t, nodes, i + 1, text, differs)
            },
        }
    }
}

/// Whether the number of some node, from the one at `i` on, equals `n`, or
/// with `differs` does not.
pub open spec fn some_number(t: Tree, nodes: Seq<NodeId>, i: int, n: Number, differs: bool) -> Result<
    bool,
    Seq<char>,
>
    decreases nodes.len() - i,
{
    if i < 0 || i >= nodes.len() {
        Ok(false)
    } else {
        match string_at(t, nodes[i]) {
            Err(e) => Err(e),
            Ok(s) => if equal(number_of_text(s), n) != differs {
                Ok(true)
            } else {
                some_number(t, nodes, i + 1, n, differs)
            },
        }
    }
}

/// Whether two nodes, one of each list, hold the same text, or with
/// `differs` do not.
pub open spec fn some_pair(
    t: Tree,
    left: Seq<NodeId>,
    i: int,
    right: Seq<NodeId>,
    differs: bool,
) -> Result<bool, Seq<char>>
    decreases left.len() - i,
{
    if i < 0 || i >= left.len() {
        Ok(false)
    } else {
        match string_at(t, left[i]) {
            Err(e) => Err(e),
            Ok(s) => match some_text(t, right, 0, s, differs) {
                Err(e) => Err(e),
                Ok(true) => Ok(true),
                Ok(false) => some_pair(t, left, i + 1, right, differs),
            },
        }
    }
}

/// A node-set against a value that is none.
pub open spec fn set_matches(t: Tree, nodes: Seq<NodeId>, other: ValueModel, differs: bool) -> Result<
    bool,
    Seq<char>,
> {
    match other {
        ValueModel::Number(n) => some_number(t, nodes, 0, n, differs),
        // Against a boolean the node-set converts as a whole, so this one
        // really is a single comparison.
        ValueModel::Boolean(b) => Ok(((nodes.len() > 0) == b) != differs),
        _ => match text_of(other, t) {
            Err(e) => Err(e),
            Ok(text) => some_text(t, nodes, 0, text, differs),
        },
    }
}

/// Whether two values are equal, or with `differs` whether they are not.
pub open spec fn compared(t: Tree, a: ValueModel, b: ValueModel, differs: bool) -> Result<
    bool,
    Seq<char>,
> {
    match (a, b) {
        (ValueModel::NodeSet(left), ValueModel::NodeSet(right)) => some_pair(
            t,
            left,
            0,
            right,
            differs,
        ),
        (ValueModel::NodeSet(nodes), _) => set_matches(t, nodes, b, differs),
        (_, ValueModel::NodeSet(nodes)) => set_matches(t, nodes, a, differs),
        _ => if a is Boolean || b is Boolean {
            Ok((truth(a) == truth(b)) != differs)
        } else if a is Number || b is Number {
            Ok(equal(number_of(a, t)->Ok_0, number_of(b, t)->Ok_0) != differs)
        } else {
            Ok((text_of(a, t)->Ok_0 == text_of(b, t)->Ok_0) != differs)
        },
    }
}

/// Whether two numbers stand as an operator says.
pub open spec fn ordered(op: BinaryOp, x: Number, y: Number) -> bool {
    match op {
        BinaryOp::Less => less(x, y),
        BinaryOp::LessEqual => less_or_same(x, y),
        BinaryOp::Greater => less(y, x),
        _ => less_or_same(y, x),
    }
}

/// The operator that says the same with its sides exchanged.
pub open spec fn flipped(op: BinaryOp) -> BinaryOp {
    match op {
        BinaryOp::Less => BinaryOp::Greater,
        BinaryOp::LessEqual => BinaryOp::GreaterEqual,
        BinaryOp::Greater => BinaryOp::Less,
        _ => BinaryOp::LessEqual,
    }
}

/// Whether the number of some node, from the one at `i` on, stands to `n` as
/// an operator says.
pub open spec fn some_ordered(t: Tree, nodes: Seq<NodeId>, i: int, op: BinaryOp, n: Number) -> Result<
    bool,
    Seq<char>,
>
    decreases nodes.len() - i,
{
    if i < 0 || i >= nodes.len() {
        Ok(false)
    } else {
        match string_at(t, nodes[i]) {
            Err(e) => Err(e),
            Ok(s) => if ordered(op, number_of_text(s), n) {
                Ok(true)
            } else {
                some_ordered(t, nodes, i + 1, op, n)
            },
        }
    }
}

/// Whether the numbers of two nodes, one of each list, stand as an operator
/// says.
pub open spec fn some_ordered_pair(
    t: Tree,
    left: Seq<NodeId>,
    i: int,
    right: Seq<NodeId>,
    op: BinaryOp,
) -> Result<bool, Seq<char>>
    decreases left.len() - i,
{
    if i < 0 || i >= left.len() {
        Ok(false)
    } else {
        match string_at(t, left[i]) {
            Err(e) => Err(e),
            Ok(s) => match some_ordered(t, right, 0, flipped(op), number_of_text(s)) {
                Err(e) => Err(e),
                Ok(true) => Ok(true),
                Ok(false) => some_ordered_pair(t, left, i + 1, right, op),
            },
        }
    }
}

/// Whether two values stand as an operator says. Like equality, that is
/// existential over a node-set.
pub open spec fn standing(t: Tree, op: BinaryOp, a: ValueModel, b: ValueModel) -> Result<
    bool,
    Seq<char>,
> {
    match (a, b) {
        (ValueModel::NodeSet(left), ValueModel::NodeSet(right)) => some_ordered_pair(
            t,
            left,
            0,
            right,
            op,
        ),
        (ValueModel::NodeSet(nodes), _) => match number_of(b, t) {
            Err(e) => Err(e),
            Ok(n) => some_ordered(t, nodes, 0, op, n),
        },
        (_, ValueModel::NodeSet(nodes)) => match number_of(a, t) {
            Err(e) => Err(e),
            Ok(n) => some_ordered(t, nodes, 0, flipped(op), n),
        },
        _ => Ok(ordered(op, number_of(a, t)->Ok_0, number_of(b, t)->Ok_0)),
    }
}

pub open spec fn found(r: Result<bool, String>) -> Result<bool, Seq<char>> {
    match r {
        Ok(b) => Ok(b),
        Err(e) => Err(e@),
    }
}

fn any_text(instance: &Instance, nodes: &Vec<NodeId>, text: &str, differs: bool) -> (r: Result<
    bool,
    String,
>)
    requires
        instance@.wf(),
    ensures
        found(r) == some_text(instance@, nodes@, 0, text@, differs),
{
    let n = nodes.len();
    for i in 0..n
        invariant
            instance@.wf(),
            n == nodes@.len(),
            some_text(instance@, nodes@, 0, text@, differs) == some_text(
                instance@,
                nodes@,
                i as int,
                text@,
                differs,
            ),
    {
        match string_of_node(instance, nodes[i]) {
            Err(e) => {
                return Err(e);
            },
            Ok(s) => {
                if same(s.as_str(), text) != differs {
                    return Ok(true);
                }
            },
        }
    }
    Ok(false)
}

fn any_number(instance: &Instance, nodes: &Vec<NodeId>, n: Number, differs: bool) -> (r: Result<
    bool,
    String,
>)
    requires
        instance@.wf(),
    ensures
        found(r) == some_number(instance@, nodes@, 0, n, differs),
{
    let len = nodes.len();
    for i in 0..len
        invariant
            instance@.wf(),
            len == nodes@.len(),
            some_number(instance@, nodes@, 0, n, differs) == some_number(
                instance@,
                nodes@,
                i as int,
                n,
                differs,
            ),
    {
        match string_of_node(instance, nodes[i]) {
            Err(e) => {
                return Err(e);
            },
            Ok(s) => {
                let equals = string_to_number(s.as_str()) == n;
                if equals != differs {
                    return Ok(true);
                }
            },
        }
    }
    Ok(false)
}

fn any_pair(instance: &Instance, left: &Vec<NodeId>, right: &Vec<NodeId>, differs: bool) -> (r: Result<
    bool,
    String,
>)
    requires
        instance@.wf(),
    ensures
        found(r) == some_pair(instance@, left@, 0, right@, differs),
{
    let n = left.len();
    for i in 0..n
        invariant
            instance@.wf(),
            n == left@.len(),
            some_pair(instance@, left@, 0, right@, differs) == some_pair(
                instance@,
                left@,
                i as int,
                right@,
                differs,
            ),
    {
        match string_of_node(instance, left[i]) {
            Err(e) => {
                return Err(e);
            },
            Ok(s) => match any_text(instance, right, s.as_str(), differs) {
                Err(e) => {
                    return Err(e);
                },
                Ok(hit) => {
                    if hit {
                        return Ok(true);
                    }
                },
            },
        }
    }
    Ok(false)
}

fn set_against(instance: &Instance, nodes: &Vec<NodeId>, other: &Value, differs: bool) -> (r: Result<
    bool,
    String,
>)
    requires
        instance@.wf(),
    ensures
        found(r) == set_matches(instance@, nodes@, other@, differs),
{
    match other {
        Value::Number(n) => any_number(instance, nodes, *n, differs),
        Value::Boolean(b) => Ok(((nodes.len() > 0) == *b) != differs),
        _ => match other.text(instance) {
            Err(e) => Err(e),
            Ok(text) => any_text(instance, nodes, text.as_str(), differs),
        },
    }
}

/// Whether two values are equal, or with `differs` whether they are not.
pub(crate) fn compare(instance: &Instance, a: &Value, b: &Value, differs: bool) -> (r: Result<
    bool,
    String,
>)
    requires
        instance@.wf(),
    ensures
        found(r) == compared(instance@, a@, b@, differs),
{
    match (a, b) {
        (Value::NodeSet(left), Value::NodeSet(right)) => any_pair(instance, left, right, differs),
        (Value::NodeSet(nodes), _) => set_against(instance, nodes, b, differs),
        (_, Value::NodeSet(nodes)) => set_against(instance, nodes, a, differs),
        (Value::Boolean(_), _) | (_, Value::Boolean(_)) => Ok(
            (a.to_boolean(instance) == b.to_boolean(instance)) != differs,
        ),
        (Value::Number(_), _) | (_, Value::Number(_)) => {
            let equals = a.to_number(instance) == b.to_number(instance);
            Ok(equals != differs)
        },
        _ => Ok(
            same(
                a.to_string_value(instance).as_str(),
                b.to_string_value(instance).as_str(),
            ) != differs,
        ),
    }
}

pub(crate) fn in_order(op: BinaryOp, x: Number, y: Number) -> (r: bool)
    ensures
        r == ordered(op, x, y),
{
    match op {
        BinaryOp::Less => x.less(y),
        BinaryOp::LessEqual => x.less_or_same(y),
        BinaryOp::Greater => y.less(x),
        _ => y.less_or_same(x),
    }
}

fn flip(op: BinaryOp) -> (r: BinaryOp)
    ensures
        r == flipped(op),
{
    match op {
        BinaryOp::Less => BinaryOp::Greater,
        BinaryOp::LessEqual => BinaryOp::GreaterEqual,
        BinaryOp::Greater => BinaryOp::Less,
        _ => BinaryOp::LessEqual,
    }
}

fn any_ordered(instance: &Instance, nodes: &Vec<NodeId>, op: BinaryOp, n: Number) -> (r: Result<
    bool,
    String,
>)
    requires
        instance@.wf(),
    ensures
        found(r) == some_ordered(instance@, nodes@, 0, op, n),
{
    let len = nodes.len();
    for i in 0..len
        invariant
            instance@.wf(),
            len == nodes@.len(),
            some_ordered(instance@, nodes@, 0, op, n) == some_ordered(
                instance@,
                nodes@,
                i as int,
                op,
                n,
            ),
    {
        match string_of_node(instance, nodes[i]) {
            Err(e) => {
                return Err(e);
            },
            Ok(s) => {
                if in_order(op, string_to_number(s.as_str()), n) {
                    return Ok(true);
                }
            },
        }
    }
    Ok(false)
}

fn any_ordered_pair(
    instance: &Instance,
    left: &Vec<NodeId>,
    right: &Vec<NodeId>,
    op: BinaryOp,
) -> (r: Result<bool, String>)
    requires
        instance@.wf(),
    ensures
        found(r) == some_ordered_pair(instance@, left@, 0, right@, op),
{
    let n = left.len();
    for i in 0..n
        invariant
            instance@.wf(),
            n == left@.len(),
            some_ordered_pair(instance@, left@, 0, right@, op) == some_ordered_pair(
                instance@,
                left@,
                i as int,
                right@,
                op,
            ),
    {
        match string_of_node(instance, left[i]) {
            Err(e) => {
                return Err(e);
            },
            Ok(s) => match any_ordered(instance, right, flip(op), string_to_number(s.as_str())) {
                Err(e) => {
                    return Err(e);
                },
                Ok(hit) => {
                    if hit {
                        return Ok(true);
                    }
                },
            },
        }
    }
    Ok(false)
}

/// Whether two values stand as `<`, `<=`, `>` or `>=` says.
pub(crate) fn rank(instance: &Instance, op: BinaryOp, a: &Value, b: &Value) -> (r: Result<
    bool,
    String,
>)
    requires
        instance@.wf(),
    ensures
        found(r) == standing(instance@, op, a@, b@),
{
    match (a, b) {
        (Value::NodeSet(left), Value::NodeSet(right)) => any_ordered_pair(
            instance,
            left,
            right,
            op,
        ),
        (Value::NodeSet(nodes), _) => match b.number(instance) {
            Err(e) => Err(e),
            Ok(n) => any_ordered(instance, nodes, op, n),
        },
        (_, Value::NodeSet(nodes)) => match a.number(instance) {
            Err(e) => Err(e),
            Ok(n) => any_ordered(instance, nodes, flip(op), n),
        },
        _ => Ok(in_order(op, a.to_number(instance), b.to_number(instance))),
    }
}

} // verus!
