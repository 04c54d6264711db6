//! The function library: XPath 1.0's, plus the OpenRosa extensions.
//!
//! A name this table does not carry is an error naming itself. That rule is
//! the point of the crate: a form engine that answers a function it does not
//! know, with an empty string or with false, produces a form that looks like
//! it worked.

use crate::eval::value::{
    kind_text, number_of, number_of_text, string_at, text_of, truth, ValueModel,
};
use crate::eval::{Here, Surroundings};
use crate::functions::dates::{formatted_from, parse_iso};
use crate::number::power::{common_log, exponential, natural_log, power};
use crate::number::root::square_root;
use crate::number::{
    absolute, clamped, greater, is_nan, less, less_or_same, lesser, of_count, product, quotient,
    sum, whole, with_sign, Number, Toward, INFINITE,
};
use crate::parser::ast::ExprModel;
use crate::parser::lexer::after;
use crate::text::{begins_with, decimal, find, finishes_with, is_blank, join, quoted, trim, words};
use crate::tree::{NodeId, Tree};
use vstd::prelude::*;

pub mod calendar;
pub mod call;
pub mod context;
pub mod dates;
pub mod laws;
pub mod names;
pub mod pattern;
pub mod powers;

pub use crate::functions::call::{call, number_to_string};

verus! {

/// A function that the library has a name for.
#[derive(Debug, Clone, Copy, PartialEq, Eq, Structural)]
pub enum Builtin {
    Count,
    Position,
    Last,
    Name,
    Text,
    Concat,
    StringLength,
    NormalizeSpace,
    Contains,
    StartsWith,
    EndsWith,
    SubstringBefore,
    SubstringAfter,
    Substring,
    Substr,
    Translate,
    Truth,
    Not,
    True,
    False,
    BooleanFromString,
    Number,
    Sum,
    Floor,
    Ceiling,
    Round,
    Int,
    Abs,
    Pow,
    Log,
    Log10,
    Exp,
    Sqrt,
    Min,
    Max,
    Selected,
    SelectedAt,
    CountSelected,
    Join,
    If,
    Coalesce,
    Once,
    Today,
    Now,
    FormatDate,
    Regex,
    ChoiceName,
    /// Named but not implemented. Listed by name so the message says which
    /// piece is missing rather than "unknown function", and so nobody
    /// mistakes the gap for a feature that silently returned nothing.
    Missing,
}

/// The function of a name.
pub open spec fn builtin(name: Seq<char>) -> Option<Builtin> {
    if name == "count"@ {
        Some(Builtin::Count)
    } else if name == "position"@ {
        Some(Builtin::Position)
    } else if name == "last"@ {
        Some(Builtin::Last)
    } else if name == "name"@ || name == "local-name"@ {
        Some(Builtin::Name)
    } else if name == "string"@ {
        Some(Builtin::Text)
    } else if name == "concat"@ {
        Some(Builtin::Concat)
    } else if name == "string-length"@ {
        Some(Builtin::StringLength)
    } else if name == "normalize-space"@ {
        Some(Builtin::NormalizeSpace)
    } else if name == "contains"@ {
        Some(Builtin::Contains)
    } else if name == "starts-with"@ {
        Some(Builtin::StartsWith)
    } else if name == "ends-with"@ {
        Some(Builtin::EndsWith)
    } else if name == "substring-before"@ {
        Some(Builtin::SubstringBefore)
    } else if name == "substring-after"@ {
        Some(Builtin::SubstringAfter)
    } else if name == "substring"@ {
        Some(Builtin::Substring)
    } else if name == "substr"@ {
        Some(Builtin::Substr)
    } else if name == "translate"@ {
        Some(Builtin::Translate)
    } else if name == "boolean"@ {
        Some(Builtin::Truth)
    } else if name == "not"@ {
        Some(Builtin::Not)
    } else if name == "true"@ {
        Some(Builtin::True)
    } else if name == "false"@ {
        Some(Builtin::False)
    } else if name == "boolean-from-string"@ {
        Some(Builtin::BooleanFromString)
    } else if name == "number"@ {
        Some(Builtin::Number)
    } else if name == "sum"@ {
        Some(Builtin::Sum)
    } else if name == "floor"@ {
        Some(Builtin::Floor)
    } else if name == "ceiling"@ {
        Some(Builtin::Ceiling)
    } else if name == "round"@ {
        Some(Builtin::Round)
    } else if name == "int"@ {
        Some(Builtin::Int)
    } else if name == "abs"@ {
        Some(Builtin::Abs)
    } else if name == "pow"@ {
        Some(Builtin::Pow)
    } else if name == "log"@ {
        Some(Builtin::Log)
    } else if name == "log10"@ {
        Some(Builtin::Log10)
    } else if name == "exp"@ {
        Some(Builtin::Exp)
    } else if name == "sqrt"@ {
        Some(Builtin::Sqrt)
    } else if name == "min"@ {
        Some(Builtin::Min)
    } else if name == "max"@ {
        Some(Builtin::Max)
    } else if name == "selected"@ {
        Some(Builtin::Selected)
    } else if name == "selected-at"@ {
        Some(Builtin::SelectedAt)
    } else if name == "count-selected"@ {
        Some(Builtin::CountSelected)
    } else if name == "join"@ {
        Some(Builtin::Join)
    } else if name == "if"@ {
        Some(Builtin::If)
    } else if name == "coalesce"@ {
        Some(Builtin::Coalesce)
    } else if name == "once"@ {
        Some(Builtin::Once)
    } else if name == "today"@ {
        Some(Builtin::Today)
    } else if name == "now"@ {
        Some(Builtin::Now)
    } else if name == "format-date"@ || name == "format-date-time"@ {
        Some(Builtin::FormatDate)
    } else if name == "regex"@ {
        Some(Builtin::Regex)
    } else if name == "jr:choice-name"@ || name == "choice-name"@ {
        Some(Builtin::ChoiceName)
    } else if is_missing(name) {
        Some(Builtin::Missing)
    } else {
        None
    }
}

pub open spec fn is_missing(name: Seq<char>) -> bool {
    name == "pulldata"@ || name == "indexed-repeat"@ || name == "current"@ || name == "randomize"@
        || name == "uuid"@ || name == "digest"@ || name == "date"@ || name == "date-time"@ || name
        == "decimal-date-time"@ || name == "decimal-time"@ || name == "area"@ || name == "distance"@
        || name == "checklist"@ || name == "weighted-checklist"@ || name == "position-in-repeat"@
}

/// The least and the most arguments that a function takes, or none where it
/// takes any number.
pub open spec fn arity(b: Builtin) -> Option<(nat, nat)> {
    match b {
        Builtin::Position | Builtin::Last | Builtin::True | Builtin::False | Builtin::Today
        | Builtin::Now => Some((0, 0)),
        Builtin::Name | Builtin::Text | Builtin::StringLength | Builtin::NormalizeSpace
        | Builtin::Number => Some((0, 1)),
        Builtin::Count | Builtin::Truth | Builtin::Not | Builtin::BooleanFromString | Builtin::Sum
        | Builtin::Floor | Builtin::Ceiling | Builtin::Int | Builtin::Abs | Builtin::Log
        | Builtin::Log10 | Builtin::Exp | Builtin::Sqrt | Builtin::CountSelected
        | Builtin::Once => Some((1, 1)),
        Builtin::Round => Some((1, 2)),
        Builtin::Contains | Builtin::StartsWith | Builtin::EndsWith | Builtin::SubstringBefore
        | Builtin::SubstringAfter | Builtin::Pow | Builtin::Selected | Builtin::SelectedAt
        | Builtin::Join | Builtin::Coalesce | Builtin::FormatDate | Builtin::Regex
        | Builtin::ChoiceName => Some((2, 2)),
        Builtin::Substring | Builtin::Substr => Some((2, 3)),
        Builtin::Translate | Builtin::If => Some((3, 3)),
        Builtin::Concat | Builtin::Min | Builtin::Max | Builtin::Missing => None,
    }
}

pub open spec fn arity_text(low: nat, high: nat) -> Seq<char> {
    if low == high {
        decimal(low)
    } else {
        decimal(low) + " or "@ + decimal(high)
    }
}

/// What an expression comes to.
pub type Evaluated = Result<ValueModel, Seq<char>>;

pub open spec fn text_result(r: Evaluated, t: Tree) -> Result<Seq<char>, Seq<char>> {
    match r {
        Ok(v) => text_of(v, t),
        Err(e) => Err(e),
    }
}

pub open spec fn number_result(r: Evaluated, t: Tree) -> Result<Number, Seq<char>> {
    match r {
        Ok(v) => number_of(v, t),
        Err(e) => Err(e),
    }
}

pub open spec fn truth_result(r: Evaluated) -> Result<bool, Seq<char>> {
    match r {
        Ok(v) => Ok(truth(v)),
        Err(e) => Err(e),
    }
}

pub open spec fn text_value(r: Result<Seq<char>, Seq<char>>) -> Evaluated {
    match r {
        Ok(s) => Ok(ValueModel::String(s)),
        Err(e) => Err(e),
    }
}

pub open spec fn number_value(r: Result<Number, Seq<char>>) -> Evaluated {
    match r {
        Ok(n) => Ok(ValueModel::Number(n)),
        Err(e) => Err(e),
    }
}

pub open spec fn truth_value(r: Result<bool, Seq<char>>) -> Evaluated {
    match r {
        Ok(b) => Ok(ValueModel::Boolean(b)),
        Err(e) => Err(e),
    }
}

/// The string-values of nodes from the one at `i` on.
pub open spec fn strings_from(t: Tree, nodes: Seq<NodeId>, i: int) -> Result<
    Seq<Seq<char>>,
    Seq<char>,
>
    decreases nodes.len() - i,
{
    if i < 0 || i >= nodes.len() {
        Ok(Seq::empty())
    } else {
        match string_at(t, nodes[i]) {
            Err(e) => Err(e),
            Ok(s) => after(seq![s], strings_from(t, nodes, i + 1)),
        }
    }
}

pub open spec fn joined_strings(t: Tree, nodes: Seq<NodeId>, separator: Seq<char>) -> Result<
    Seq<char>,
    Seq<char>,
> {
    match strings_from(t, nodes, 0) {
        Err(e) => Err(e),
        Ok(s) => Ok(join(s, separator)),
    }
}

/// The texts of arguments from the one at `i` on, run together.
pub open spec fn concatenated(results: Seq<Evaluated>, t: Tree, i: int) -> Result<
    Seq<char>,
    Seq<char>,
>
    decreases results.len() - i,
{
    if i < 0 || i >= results.len() {
        Ok(Seq::empty())
    } else {
        match text_result(results[i], t) {
            Err(e) => Err(e),
            Ok(s) => after(s, concatenated(results, t, i + 1)),
        }
    }
}

/// `total` with the numbers of nodes from the one at `i` on added to it.
pub open spec fn total_from(t: Tree, nodes: Seq<NodeId>, i: int, total: Number) -> Result<
    Number,
    Seq<char>,
>
    decreases nodes.len() - i,
{
    if i < 0 || i >= nodes.len() {
        Ok(total)
    } else {
        match string_at(t, nodes[i]) {
            Err(e) => Err(e),
            Ok(s) => total_from(t, nodes, i + 1, sum(total, number_of_text(s))),
        }
    }
}

pub open spec fn numbers_of_texts(s: Seq<Seq<char>>) -> Seq<Number> {
    Seq::new(s.len(), |i: int| number_of_text(s[i]))
}

/// The numbers that an argument stands for: those of all its nodes, where it
/// is a node-set.
pub open spec fn numbers_of(v: ValueModel, t: Tree) -> Result<Seq<Number>, Seq<char>> {
    match v {
        ValueModel::NodeSet(nodes) => match strings_from(t, nodes, 0) {
            Err(e) => Err(e),
            Ok(s) => Ok(numbers_of_texts(s)),
        },
        _ => match number_of(v, t) {
            Err(e) => Err(e),
            Ok(n) => Ok(seq![n]),
        },
    }
}

pub open spec fn all_numbers(results: Seq<Evaluated>, t: Tree, i: int) -> Result<
    Seq<Number>,
    Seq<char>,
>
    decreases results.len() - i,
{
    if i < 0 || i >= results.len() {
        Ok(Seq::empty())
    } else {
        match results[i] {
            Err(e) => Err(e),
            Ok(v) => match numbers_of(v, t) {
                Err(e) => Err(e),
                Ok(s) => after(s, all_numbers(results, t, i + 1)),
            },
        }
    }
}

pub open spec fn least(s: Seq<Number>) -> Number
    decreases s.len(),
{
    if s.len() == 0 {
        with_sign(false, INFINITE as nat)
    } else {
        lesser(least(s.drop_last()), s.last())
    }
}

pub open spec fn most(s: Seq<Number>) -> Number
    decreases s.len(),
{
    if s.len() == 0 {
        with_sign(true, INFINITE as nat)
    } else {
        greater(most(s.drop_last()), s.last())
    }
}

pub open spec fn any_nan(s: Seq<Number>) -> bool {
    exists|i: int| 0 <= i < s.len() && is_nan(#[trigger] s[i])
}

/// The least or the most of some numbers. Of none it is NaN, not zero,
/// because "no answers" is not "zero".
pub open spec fn extreme(s: Seq<Number>, smallest: bool) -> Number {
    if s.len() == 0 || any_nan(s) {
        crate::number::not_a_number()
    } else if smallest {
        least(s)
    } else {
        most(s)
    }
}

/// A place among `len` characters, held within them.
pub open spec fn place(n: Number, len: nat) -> int {
    let i = clamped(n, 0, usize::MAX as int);
    if i > len {
        len as int
    } else {
        i
    }
}

pub open spec fn between(s: Seq<char>, from: int, to: int) -> Seq<char> {
    if from >= to {
        Seq::empty()
    } else {
        s.subrange(from, to)
    }
}

pub open spec fn number_zero() -> Number {
    with_sign(false, 0)
}

/// Whether the character at place `p`, counted from 1, is among `count`
/// characters from `start` on.
pub open spec fn in_substring(p: nat, start: Number, count: Option<Number>) -> bool {
    let first = whole(start, Toward::Nearest);
    &&& less_or_same(first, of_count(p))
    &&& count matches Some(n) ==> less(of_count(p), sum(first, whole(n, Toward::Nearest)))
}

/// XPath counts from 1 and rounds its arguments; ODK's `substr` counts from 0
/// and takes an exclusive end. Both exist, and mixing them up shifts every
/// extracted code by one character.
pub open spec fn substring(s: Seq<char>, start: Number, count: Option<Number>) -> Seq<char>
    decreases s.len(),
{
    if s.len() == 0 {
        s
    } else {
        let rest = substring(s.drop_last(), start, count);
        if in_substring(s.len(), start, count) {
            rest.push(s.last())
        } else {
            rest
        }
    }
}

/// An offset into `len` characters; below zero it counts from the end.
pub open spec fn offset(n: Number, len: nat) -> int {
    place(
        if less(n, number_zero()) {
            greater(sum(of_count(len), n), number_zero())
        } else {
            lesser(n, of_count(len))
        },
        len,
    )
}

/// Where a character first stands in a list.
pub open spec fn first_place(s: Seq<char>, c: char, i: int) -> int
    decreases s.len() - i,
{
    if 0 <= i < s.len() && s[i] != c {
        first_place(s, c, i + 1)
    } else {
        i
    }
}

/// A text with the characters of `from` put as those of `to` at the same
/// place, and left out where `to` has none.
pub open spec fn translated(s: Seq<char>, from: Seq<char>, to: Seq<char>) -> Seq<char>
    decreases s.len(),
{
    if s.len() == 0 {
        s
    } else {
        let rest = translated(s.drop_last(), from, to);
        let i = first_place(from, s.last(), 0);
        if i >= from.len() {
            rest.push(s.last())
        } else if i < to.len() {
            rest.push(to[i])
        } else {
            rest
        }
    }
}

pub open spec fn rounded_to(value: Number, places: Number) -> Number {
    let factor = power(ten(), whole(places, Toward::Zero));
    quotient(whole(product(value, factor), Toward::Nearest), factor)
}

pub open spec fn ten() -> Number {
    of_count(10)
}

pub open spec fn word_at(s: Seq<char>, index: Number) -> Seq<char> {
    let w = words(s);
    let i = clamped(index, 0, usize::MAX as int);
    if less(index, number_zero()) || i >= w.len() {
        Seq::empty()
    } else {
        w[i]
    }
}

pub const NOT_IMPLEMENTED: &'static str =
    "() is not implemented yet — rxeval refuses to guess at a value the form will act on";

pub const NO_CHOICES: &'static str =
    " — the evaluator was given no choice list for that question";

/// The text that a function reads which takes the context node by default.
pub open spec fn text_or_here(results: Seq<Evaluated>, t: Tree, here: Here) -> Result<
    Seq<char>,
    Seq<char>,
> {
    if results.len() == 0 {
        string_at(t, here.node)
    } else {
        text_result(results[0], t)
    }
}

/// Two texts, the first before the second is looked at.
pub open spec fn two_texts(results: Seq<Evaluated>, t: Tree) -> Result<
    (Seq<char>, Seq<char>),
    Seq<char>,
> {
    match text_result(results[0], t) {
        Err(e) => Err(e),
        Ok(a) => match text_result(results[1], t) {
            Err(e) => Err(e),
            Ok(b) => Ok((a, b)),
        },
    }
}

pub open spec fn name_value(name: Seq<char>, results: Seq<Evaluated>, t: Tree, here: Here) -> Evaluated {
    if results.len() == 0 {
        if t.has(here.node) {
            Ok(ValueModel::String(t.name(here.node)))
        } else {
            Err(crate::eval::value::stray(here.node))
        }
    } else {
        match results[0] {
            Err(e) => Err(e),
            Ok(ValueModel::NodeSet(nodes)) => if nodes.len() == 0 {
                Ok(ValueModel::String(Seq::empty()))
            } else if t.has(nodes[0]) {
                Ok(ValueModel::String(t.name(nodes[0])))
            } else {
                Err(crate::eval::value::stray(nodes[0]))
            },
            Ok(other) => Err(name + "() names a node, and was given "@ + kind_text(other)),
        }
    }
}

/// ODK extends concat: given a single node-set it joins every value, which
/// is how a form flattens a repeat into one string. With more than one
/// argument each converts through string(), and a node-set among them
/// contributes its first node: XPath's rule, and JavaRosa's.
pub open spec fn concat_value(results: Seq<Evaluated>, t: Tree) -> Evaluated {
    if results.len() == 1 && results[0] matches Ok(ValueModel::NodeSet(nodes)) {
        text_value(joined_strings(t, results[0]->Ok_0->NodeSet_0, ""@))
    } else {
        text_value(concatenated(results, t, 0))
    }
}

pub open spec fn date_value(name: Seq<char>, results: Seq<Evaluated>, t: Tree) -> Evaluated {
    match text_result(results[0], t) {
        Err(e) => Err(e),
        Ok(value) => if is_blank(value) {
            Ok(ValueModel::String(Seq::empty()))
        } else {
            match parse_iso(value) {
                None => Err(name + "(): "@ + quoted(value) + " is not an ISO date or date-time"@),
                Some(parts) => match text_result(results[1], t) {
                    Err(e) => Err(e),
                    Ok(format) => text_value(formatted_from(parts, format, 0)),
                },
            }
        },
    }
}

/// The question that a label is asked for. It is written as a string because
/// the form is pointing at one, not reading it.
pub open spec fn question_of(arg: ExprModel, result: Evaluated, t: Tree) -> Result<
    Seq<char>,
    Seq<char>,
> {
    match arg {
        ExprModel::Literal(path) => Ok(trim(path)),
        _ => match text_result(result, t) {
            Err(e) => Err(e),
            Ok(s) => Ok(trim(s)),
        },
    }
}

pub open spec fn choice_value(
    name: Seq<char>,
    args: Seq<ExprModel>,
    results: Seq<Evaluated>,
    t: Tree,
    env: Surroundings,
) -> Evaluated {
    match text_result(results[0], t) {
        Err(e) => Err(e),
        Ok(value) => if is_blank(value) {
            Ok(ValueModel::String(Seq::empty()))
        } else {
            match question_of(args[1], results[1], t) {
                Err(e) => Err(e),
                Ok(question) => match (env.label)(value, question) {
                    Some(label) => Ok(ValueModel::String(label)),
                    None => Err(
                        name + "(): no choice "@ + quoted(value) + " for "@ + question
                            + NO_CHOICES@,
                    ),
                },
            }
        },
    }
}

pub open spec fn substring_value(results: Seq<Evaluated>, t: Tree) -> Evaluated {
    match text_result(results[0], t) {
        Err(e) => Err(e),
        Ok(s) => match number_result(results[1], t) {
            Err(e) => Err(e),
            Ok(start) => if results.len() == 3 {
                match number_result(results[2], t) {
                    Err(e) => Err(e),
                    Ok(count) => Ok(ValueModel::String(substring(s, start, Some(count)))),
                }
            } else {
                Ok(ValueModel::String(substring(s, start, None)))
            },
        },
    }
}

pub open spec fn substr_value(results: Seq<Evaluated>, t: Tree) -> Evaluated {
    match text_result(results[0], t) {
        Err(e) => Err(e),
        Ok(s) => match number_result(results[1], t) {
            Err(e) => Err(e),
            Ok(start) => if results.len() == 3 {
                match number_result(results[2], t) {
                    Err(e) => Err(e),
                    Ok(end) => Ok(
                        ValueModel::String(
                            between(s, offset(start, s.len()), offset(end, s.len())),
                        ),
                    ),
                }
            } else {
                Ok(ValueModel::String(between(s, offset(start, s.len()), s.len() as int)))
            },
        },
    }
}

pub open spec fn translate_value(results: Seq<Evaluated>, t: Tree) -> Evaluated {
    match two_texts(results, t) {
        Err(e) => Err(e),
        Ok((s, from)) => match text_result(results[2], t) {
            Err(e) => Err(e),
            Ok(to) => Ok(ValueModel::String(translated(s, from, to))),
        },
    }
}

pub open spec fn join_value(results: Seq<Evaluated>, t: Tree) -> Evaluated {
    match text_result(results[0], t) {
        Err(e) => Err(e),
        Ok(separator) => match results[1] {
            Err(e) => Err(e),
            Ok(ValueModel::NodeSet(nodes)) => text_value(joined_strings(t, nodes, separator)),
            Ok(other) => text_value(text_of(other, t)),
        },
    }
}

pub open spec fn round_value(results: Seq<Evaluated>, t: Tree) -> Evaluated {
    match number_result(results[0], t) {
        Err(e) => Err(e),
        Ok(value) => if results.len() == 1 {
            Ok(ValueModel::Number(whole(value, Toward::Nearest)))
        } else {
            match number_result(results[1], t) {
                Err(e) => Err(e),
                Ok(places) => Ok(ValueModel::Number(rounded_to(value, places))),
            }
        },
    }
}

/// A function of one number.
pub open spec fn numeric(b: Builtin, n: Number) -> Number {
    match b {
        Builtin::Floor => whole(n, Toward::Below),
        Builtin::Ceiling => whole(n, Toward::Above),
        Builtin::Int => whole(n, Toward::Zero),
        Builtin::Abs => absolute(n),
        Builtin::Log => natural_log(n),
        Builtin::Log10 => common_log(n),
        Builtin::Exp => exponential(n),
        _ => square_root(n),
    }
}

pub open spec fn numeric_value(b: Builtin, results: Seq<Evaluated>, t: Tree) -> Evaluated {
    match number_result(results[0], t) {
        Err(e) => Err(e),
        Ok(n) => Ok(ValueModel::Number(numeric(b, n))),
    }
}

/// A function of two texts.
pub open spec fn textual(b: Builtin, s: Seq<char>, part: Seq<char>) -> ValueModel {
    match b {
        Builtin::Contains => ValueModel::Boolean(find(s, part) is Some),
        Builtin::StartsWith => ValueModel::Boolean(begins_with(s, part)),
        Builtin::EndsWith => ValueModel::Boolean(finishes_with(s, part)),
        Builtin::SubstringBefore => ValueModel::String(
            match find(s, part) {
                Some(i) => s.take(i),
                None => Seq::empty(),
            },
        ),
        Builtin::SubstringAfter => ValueModel::String(
            match find(s, part) {
                Some(i) => s.skip(i + part.len()),
                None => Seq::empty(),
            },
        ),
        _ => ValueModel::Boolean(words(s).contains(trim(part))),
    }
}

pub open spec fn textual_value(b: Builtin, results: Seq<Evaluated>, t: Tree) -> Evaluated {
    match two_texts(results, t) {
        Err(e) => Err(e),
        Ok((s, part)) => Ok(textual(b, s, part)),
    }
}

/// What a function gives for arguments that come to `results`. A result is
/// looked at only where the function reads that argument.
pub open spec fn applied(
    b: Builtin,
    name: Seq<char>,
    args: Seq<ExprModel>,
    results: Seq<Evaluated>,
    t: Tree,
    here: Here,
    env: Surroundings,
) -> Evaluated {
    match b {
        Builtin::Count => match results[0] {
            Err(e) => Err(e),
            Ok(ValueModel::NodeSet(nodes)) => Ok(ValueModel::Number(of_count(nodes.len()))),
            Ok(other) => Err("count() counts nodes, and was given "@ + kind_text(other)),
        },
        Builtin::Position => Ok(ValueModel::Number(of_count(here.position))),
        Builtin::Last => Ok(ValueModel::Number(of_count(here.size))),
        Builtin::Name => name_value(name, results, t, here),
        Builtin::Text => text_value(text_or_here(results, t, here)),
        Builtin::Concat => concat_value(results, t),
        Builtin::StringLength => match text_or_here(results, t, here) {
            Err(e) => Err(e),
            Ok(s) => Ok(ValueModel::Number(of_count(s.len()))),
        },
        Builtin::NormalizeSpace => match text_or_here(results, t, here) {
            Err(e) => Err(e),
            Ok(s) => Ok(ValueModel::String(join(words(s), " "@))),
        },
        Builtin::Contains | Builtin::StartsWith | Builtin::EndsWith | Builtin::SubstringBefore
        | Builtin::SubstringAfter | Builtin::Selected => textual_value(b, results, t),
        Builtin::Substring => substring_value(results, t),
        Builtin::Substr => substr_value(results, t),
        Builtin::Translate => translate_value(results, t),
        Builtin::Truth => truth_value(truth_result(results[0])),
        Builtin::Not => match truth_result(results[0]) {
            Err(e) => Err(e),
            Ok(v) => Ok(ValueModel::Boolean(!v)),
        },
        Builtin::True => Ok(ValueModel::Boolean(true)),
        Builtin::False => Ok(ValueModel::Boolean(false)),
        // ODK's, and not the same as boolean(): "0" and "false" are false
        // here, where XPath calls any non-empty string true. Case-sensitive,
        // as both engines of the ecosystem are.
        Builtin::BooleanFromString => match text_result(results[0], t) {
            Err(e) => Err(e),
            Ok(s) => Ok(ValueModel::Boolean(s == "1"@ || s == "true"@)),
        },
        Builtin::Number => if results.len() == 0 {
            match string_at(t, here.node) {
                Err(e) => Err(e),
                Ok(s) => Ok(ValueModel::Number(number_of_text(s))),
            }
        } else {
            number_value(number_result(results[0], t))
        },
        Builtin::Sum => match results[0] {
            Err(e) => Err(e),
            Ok(ValueModel::NodeSet(nodes)) => number_value(
                total_from(t, nodes, 0, with_sign(true, 0)),
            ),
            Ok(other) => Err("sum() adds up a node-set, and was given "@ + kind_text(other)),
        },
        Builtin::Floor | Builtin::Ceiling | Builtin::Int | Builtin::Abs | Builtin::Log
        | Builtin::Log10 | Builtin::Exp | Builtin::Sqrt => numeric_value(b, results, t),
        Builtin::Round => round_value(results, t),
        Builtin::Pow => match number_result(results[0], t) {
            Err(e) => Err(e),
            Ok(x) => match number_result(results[1], t) {
                Err(e) => Err(e),
                Ok(y) => Ok(ValueModel::Number(power(x, y))),
            },
        },
        Builtin::Min | Builtin::Max => match all_numbers(results, t, 0) {
            Err(e) => Err(e),
            Ok(s) => Ok(ValueModel::Number(extreme(s, b == Builtin::Min))),
        },
        Builtin::SelectedAt => match text_result(results[0], t) {
            Err(e) => Err(e),
            Ok(s) => match number_result(results[1], t) {
                Err(e) => Err(e),
                Ok(index) => Ok(ValueModel::String(word_at(s, index))),
            },
        },
        Builtin::CountSelected => match text_result(results[0], t) {
            Err(e) => Err(e),
            Ok(s) => Ok(ValueModel::Number(of_count(words(s).len()))),
        },
        Builtin::Join => join_value(results, t),
        // only the taken branch is looked at: the other may divide by a zero
        // the condition exists to avoid
        Builtin::If => match truth_result(results[0]) {
            Err(e) => Err(e),
            Ok(v) => if v {
                results[1]
            } else {
                results[2]
            },
        },
        Builtin::Coalesce => match text_result(results[0], t) {
            Err(e) => Err(e),
            Ok(s) => if s.len() == 0 {
                text_value(text_result(results[1], t))
            } else {
                Ok(ValueModel::String(s))
            },
        },
        // Meaningful only while filling a form, where it means "compute this
        // if it has no value yet". Evaluating a stored submission, the value
        // is already there.
        Builtin::Once => text_value(string_at(t, here.node)),
        Builtin::Today => Ok(ValueModel::String(env.today)),
        Builtin::Now => Ok(ValueModel::String(env.now)),
        Builtin::FormatDate => date_value(name, results, t),
        Builtin::Regex => match two_texts(results, t) {
            Err(e) => Err(e),
            Ok((value, pattern)) => pattern::matched(value, pattern),
        },
        Builtin::ChoiceName => choice_value(name, args, results, t, env),
        Builtin::Missing => Err(name + NOT_IMPLEMENTED@),
    }
}

/// What a call gives: the function of that name, applied to as many
/// arguments as it takes.
pub open spec fn called(
    name: Seq<char>,
    args: Seq<ExprModel>,
    results: Seq<Evaluated>,
    t: Tree,
    here: Here,
    env: Surroundings,
) -> Evaluated {
    match builtin(name) {
        None => Err("unknown function "@ + name + "()"@),
        Some(b) => match arity(b) {
            Some((low, high)) => if low <= results.len() <= high {
                applied(b, name, args, results, t, here, env)
            } else {
                Err(
                    name + "() takes "@ + arity_text(low, high) + " argument(s), got "@ + decimal(
                        results.len(),
                    ),
                )
            },
            None => applied(b, name, args, results, t, here, env),
        },
    }
}

} // verus!
