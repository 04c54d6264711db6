//! Values and what they convert to.

use crate::number::decimal::{decimal_magnitude, display, magnitude_near, parse, parse_number};
use crate::number::natural::Natural;
use crate::number::{
    absolute, equal, integer, is_infinite, is_nan, is_negative, is_zero, less, not_a_number, signed,
    whole, with_sign, Number, Toward, ONE,
};
use crate::text::{
    cat3, chars_of, count_text, decimal, seen, signed_decimal, trim, trimmed_chars,
};
use crate::tree::{copied, Instance, NodeId, Tree};
use vstd::prelude::*;

verus! {

/// The four XPath types.
#[derive(Debug, PartialEq)]
pub enum Value {
    Boolean(bool),
    Number(Number),
    String(String),
    /// Always in document order, without duplicates.
    NodeSet(Vec<NodeId>),
}

/// What a value is.
#[verifier::ext_equal]
pub enum ValueModel {
    Boolean(bool),
    Number(Number),
    String(Seq<char>),
    NodeSet(Seq<NodeId>),
}

impl View for Value {
    type V = ValueModel;

    open spec fn view(&self) -> ValueModel {
        match self {
            Value::Boolean(b) => ValueModel::Boolean(*b),
            Value::Number(n) => ValueModel::Number(*n),
            Value::String(s) => ValueModel::String(s@),
            Value::NodeSet(nodes) => ValueModel::NodeSet(nodes@),
        }
    }
}

impl Clone for Value {
    fn clone(&self) -> (r: Value)
        ensures
            r@ == self@,
    {
        match self {
            Value::Boolean(b) => Value::Boolean(*b),
            Value::Number(n) => Value::Number(*n),
            Value::String(s) => Value::String(s.clone()),
            Value::NodeSet(nodes) => Value::NodeSet(copied(nodes)),
        }
    }
}

/// What a text is as a number. Anything unparseable is NaN.
pub open spec fn number_of_text(s: Seq<char>) -> Number {
    match parse_number(trim(s)) {
        Some(n) => n,
        None => not_a_number(),
    }
}

pub open spec fn limit() -> Number {
    with_sign(false, decimal_magnitude(1, 21))
}

/// XPath's number formatting: whole numbers carry no decimal point, and
/// there is no exponent notation in the range forms use.
pub open spec fn number_text(n: Number) -> Seq<char> {
    if is_nan(n) {
        "NaN"@
    } else if is_infinite(n) {
        if is_negative(n) {
            "-Infinity"@
        } else {
            "Infinity"@
        }
    } else if equal(n, whole(n, Toward::Zero)) && less(absolute(n), limit()) {
        signed_decimal(integer(n))
    } else {
        display(n)
    }
}

/// What is said of a node that no arena of this document holds.
pub open spec fn stray(n: NodeId) -> Seq<char> {
    "node "@ + decimal(n.0 as nat) + " is not in this document"@
}

/// The string-value of a node, where the document has it.
pub open spec fn string_at(t: Tree, n: NodeId) -> Result<Seq<char>, Seq<char>> {
    if t.has(n) {
        Ok(t.string_value(n))
    } else {
        Err(stray(n))
    }
}

/// XPath `string()`. A node-set becomes the string-value of its first node
/// in document order, not a join, which is the intuition that quietly turns
/// a repeat into one long answer.
pub open spec fn text_of(v: ValueModel, t: Tree) -> Result<Seq<char>, Seq<char>> {
    match v {
        ValueModel::Boolean(b) => Ok(
            if b {
                "true"@
            } else {
                "false"@
            },
        ),
        ValueModel::Number(n) => Ok(number_text(n)),
        ValueModel::String(s) => Ok(s),
        ValueModel::NodeSet(nodes) => if nodes.len() == 0 {
            Ok(Seq::empty())
        } else {
            string_at(t, nodes[0])
        },
    }
}

/// XPath `boolean()`. An empty node-set is false however many empty strings
/// it would have produced.
pub open spec fn truth(v: ValueModel) -> bool {
    match v {
        ValueModel::Boolean(b) => b,
        ValueModel::Number(n) => !is_zero(n) && !is_nan(n),
        ValueModel::String(s) => s.len() > 0,
        ValueModel::NodeSet(nodes) => nodes.len() > 0,
    }
}

pub open spec fn one_or_zero(b: bool) -> Number {
    with_sign(
        false,
        if b {
            ONE as nat
        } else {
            0
        },
    )
}

/// XPath `number()`.
pub open spec fn number_of(v: ValueModel, t: Tree) -> Result<Number, Seq<char>> {
    match v {
        ValueModel::Boolean(b) => Ok(one_or_zero(b)),
        ValueModel::Number(n) => Ok(n),
        _ => match text_of(v, t) {
            Ok(s) => Ok(number_of_text(s)),
            Err(e) => Err(e),
        },
    }
}

/// Whether the document has the node that a value reads as.
pub open spec fn readable(v: ValueModel, t: Tree) -> bool {
    v matches ValueModel::NodeSet(nodes) ==> nodes.len() == 0 || t.has(nodes[0])
}

pub open spec fn kind_text(v: ValueModel) -> Seq<char> {
    match v {
        ValueModel::Boolean(_) => "a boolean"@,
        ValueModel::Number(_) => "a number"@,
        ValueModel::String(_) => "a string"@,
        ValueModel::NodeSet(_) => "a node-set"@,
    }
}

pub fn string_to_number(text: &str) -> (r: Number)
    ensures
        r == number_of_text(text@),
{
    let s = trimmed_chars(&chars_of(text));
    match parse(&s) {
        Some(n) => n,
        None => Number::nan(),
    }
}

/// XPath's number formatting, which is not Rust's: whole numbers carry no
/// decimal point, and there is no exponent notation in the range forms use.
pub fn format_number(n: Number) -> (r: String)
    ensures
        r@ == number_text(n),
{
    if n.is_nan() {
        return "NaN".to_string();
    }
    if n.is_infinite() {
        return if n.is_negative() {
            "-Infinity".to_string()
        } else {
            "Infinity".to_string()
        };
    }
    let limit = signed(false, magnitude_near(&Natural::from_u64(1), 21));
    if n == n.trunc() && n.abs().less(limit) {
        return n.integer_text();
    }
    n.display()
}

pub(crate) fn stray_text(n: NodeId) -> (r: String)
    ensures
        r@ == stray(n),
{
    cat3("node ", count_text(n.0).as_str(), " is not in this document")
}

pub(crate) fn string_of_node(instance: &Instance, n: NodeId) -> (r: Result<String, String>)
    requires
        instance@.wf(),
    ensures
        seen(r) == string_at(instance@, n),
{
    if n.0 < instance.len() {
        Ok(instance.string_value(n))
    } else {
        Err(stray_text(n))
    }
}

pub open spec fn number_seen(r: Result<Number, String>) -> Result<Number, Seq<char>> {
    match r {
        Ok(n) => Ok(n),
        Err(e) => Err(e@),
    }
}

impl Value {
    /// The text of the value, or an error where that is the text of a node
    /// which the instance does not have.
    pub fn text(&self, instance: &Instance) -> (r: Result<String, String>)
        requires
            instance@.wf(),
        ensures
            seen(r) == text_of(self@, instance@),
    {
        match self {
            Value::Boolean(b) => Ok(
                if *b {
                    "true".to_string()
                } else {
                    "false".to_string()
                },
            ),
            Value::Number(n) => Ok(format_number(*n)),
            Value::String(s) => Ok(s.clone()),
            Value::NodeSet(nodes) => {
                if nodes.len() == 0 {
                    let s = String::new();
                    assert(s@ == Seq::<char>::empty());
                    Ok(s)
                } else {
                    string_of_node(instance, nodes[0])
                }
            },
        }
    }

    /// The number that the value is, or an error where that is the text of a
    /// node which the instance does not have.
    pub fn number(&self, instance: &Instance) -> (r: Result<Number, String>)
        requires
            instance@.wf(),
        ensures
            number_seen(r) == number_of(self@, instance@),
    {
        match self {
            Value::Boolean(b) => Ok(
                if *b {
                    Number::one()
                } else {
                    Number::zero()
                },
            ),
            Value::Number(n) => Ok(*n),
            _ => match self.text(instance) {
                Ok(s) => Ok(string_to_number(s.as_str())),
                Err(e) => Err(e),
            },
        }
    }

    /// XPath `string()`. A node-set becomes the string-value of its *first*
    /// node in document order, not a join, which is the intuition that
    /// quietly turns a repeat into one long answer.
    pub fn to_string_value(&self, instance: &Instance) -> (r: String)
        requires
            instance@.wf(),
            readable(self@, instance@),
        ensures
            text_of(self@, instance@) == Ok::<Seq<char>, Seq<char>>(r@),
    {
        match self.text(instance) {
            Ok(s) => s,
            Err(e) => e,
        }
    }

    /// XPath `boolean()`. An empty node-set is false however many empty
    /// strings it would have produced.
    pub fn to_boolean(&self, instance: &Instance) -> (r: bool)
        ensures
            r == truth(self@),
    {
        match self {
            Value::Boolean(b) => *b,
            Value::Number(n) => !n.is_zero() && !n.is_nan(),
            Value::String(s) => !s.as_str().is_empty(),
            Value::NodeSet(nodes) => nodes.len() > 0,
        }
    }

    /// XPath `number()`. Anything unparseable is NaN, and NaN compares false
    /// against everything, including itself.
    pub fn to_number(&self, instance: &Instance) -> (r: Number)
        requires
            instance@.wf(),
            readable(self@, instance@),
        ensures
            number_of(self@, instance@) == Ok::<Number, Seq<char>>(r),
    {
        match self.number(instance) {
            Ok(n) => n,
            Err(_) => Number::nan(),
        }
    }
}

pub fn kind_name(value: &Value) -> (r: &'static str)
    ensures
        r@ == kind_text(value@),
{
    match value {
        Value::Boolean(_) => "a boolean",
        Value::Number(_) => "a number",
        Value::String(_) => "a string",
        Value::NodeSet(_) => "a node-set",
    }
}

} // verus!
