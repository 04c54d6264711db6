//! Calling a function of the library.

use crate::eval::value::{
    format_number, kind_name, number_seen, number_text, string_of_node, string_to_number,
    stray_text, Value, ValueModel,
};
use crate::eval::{evaluate, results, Context, Environment, EvalResult};
use crate::functions::dates::{format_date_parts, read_iso};
use crate::functions::pattern::regex_matches;
use crate::functions::{
    all_numbers, any_nan, applied, arity, arity_text, between, builtin, called, choice_value,
    concat_value, concatenated, date_value, extreme, first_place, is_missing, join_value,
    joined_strings, least, most, name_value, number_result, numbers_of, numbers_of_texts, numeric,
    offset, place, question_of, round_value, rounded_to, strings_from, substr_value, substring,
    substring_value, text_or_here, text_result, text_value, textual, textual_value, total_from,
    translate_value, translated, truth_result, word_at, Builtin, Evaluated, NOT_IMPLEMENTED,
    NO_CHOICES,
};
use crate::number::{is_nan, sum, whole, with_sign, Number, Toward};
use crate::parser::ast::{exprs_model, Expr, ExprModel};
use crate::parser::grammar::lemma_models;
use crate::parser::lexer::after;
use crate::text::{
    blank, cat2, cat3, cat4, cat6, chars_of, count_text, decimal, ends, found, holds, join, joined,
    quote, same, seen, slice, starts, texts, trimmed, words, words_of,
};
use crate::tree::{Instance, NodeId, Tree};
use vstd::prelude::*;

verus! {

fn named_builtin(name: &str) -> (r: Option<Builtin>)
    ensures
        r == builtin(name@),
{
    if same(name, "count") {
        Some(Builtin::Count)
    } else if same(name, "position") {
        Some(Builtin::Position)
    } else if same(name, "last") {
        Some(Builtin::Last)
    } else if same(name, "name") || same(name, "local-name") {
        Some(Builtin::Name)
    } else if same(name, "string") {
        Some(Builtin::Text)
    } else if same(name, "concat") {
        Some(Builtin::Concat)
    } else if same(name, "string-length") {
        Some(Builtin::StringLength)
    } else if same(name, "normalize-space") {
        Some(Builtin::NormalizeSpace)
    } else if same(name, "contains") {
        Some(Builtin::Contains)
    } else if same(name, "starts-with") {
        Some(Builtin::StartsWith)
    } else if same(name, "ends-with") {
        Some(Builtin::EndsWith)
    } else if same(name, "substring-before") {
        Some(Builtin::SubstringBefore)
    } else if same(name, "substring-after") {
        Some(Builtin::SubstringAfter)
    } else if same(name, "substring") {
        Some(Builtin::Substring)
    } else if same(name, "substr") {
        Some(Builtin::Substr)
    } else if same(name, "translate") {
        Some(Builtin::Translate)
    } else if same(name, "boolean") {
        Some(Builtin::Truth)
    } else if same(name, "not") {
        Some(Builtin::Not)
    } else if same(name, "true") {
        Some(Builtin::True)
    } else if same(name, "false") {
        Some(Builtin::False)
    } else if same(name, "boolean-from-string") {
        Some(Builtin::BooleanFromString)
    } else if same(name, "number") {
        Some(Builtin::Number)
    } else if same(name, "sum") {
        Some(Builtin::Sum)
    } else if same(name, "floor") {
        Some(Builtin::Floor)
    } else if same(name, "ceiling") {
        Some(Builtin::Ceiling)
    } else if same(name, "round") {
        Some(Builtin::Round)
    } else if same(name, "int") {
        Some(Builtin::Int)
    } else if same(name, "abs") {
        Some(Builtin::Abs)
    } else if same(name, "pow") {
        Some(Builtin::Pow)
    } else if same(name, "log") {
        Some(Builtin::Log)
    } else if same(name, "log10") {
        Some(Builtin::Log10)
    } else if same(name, "exp") {
        Some(Builtin::Exp)
    } else if same(name, "sqrt") {
        Some(Builtin::Sqrt)
    } else if same(name, "min") {
        Some(Builtin::Min)
    } else if same(name, "max") {
        Some(Builtin::Max)
    } else if same(name, "selected") {
        Some(Builtin::Selected)
    } else if same(name, "selected-at") {
        Some(Builtin::SelectedAt)
    } else if same(name, "count-selected") {
        Some(Builtin::CountSelected)
    } else if same(name, "join") {
        Some(Builtin::Join)
    } else if same(name, "if") {
        Some(Builtin::If)
    } else if same(name, "coalesce") {
        Some(Builtin::Coalesce)
    } else if same(name, "once") {
        Some(Builtin::Once)
    } else if same(name, "today") {
        Some(Builtin::Today)
    } else if same(name, "now") {
        Some(Builtin::Now)
    } else if same(name, "format-date") || same(name, "format-date-time") {
        Some(Builtin::FormatDate)
    } else if same(name, "regex") {
        Some(Builtin::Regex)
    } else if same(name, "jr:choice-name") || same(name, "choice-name") {
        Some(Builtin::ChoiceName)
    } else if named_missing(name) {
        Some(Builtin::Missing)
    } else {
        None
    }
}

fn named_missing(name: &str) -> (r: bool)
    ensures
        r == is_missing(name@),
{
    same(name, "pulldata") || same(name, "indexed-repeat") || same(name, "current") || same(
        name,
        "randomize",
    ) || same(name, "uuid") || same(name, "digest") || same(name, "date") || same(name, "date-time")
        || same(name, "decimal-date-time") || same(name, "decimal-time") || same(name, "area")
        || same(name, "distance") || same(name, "checklist") || same(name, "weighted-checklist")
        || same(name, "position-in-repeat")
}

pub open spec fn arity_seen(r: Option<(usize, usize)>) -> Option<(nat, nat)> {
    match r {
        Some((low, high)) => Some((low as nat, high as nat)),
        None => None,
    }
}

fn arity_of(b: Builtin) -> (r: Option<(usize, usize)>)
    ensures
        arity_seen(r) == arity(b),
{
    match b {
        Builtin::Position | Builtin::Last | Builtin::True | Builtin::False | Builtin::Today
        | Builtin::Now => Some((0, 0)),
        Builtin::Name | Builtin::Text | Builtin::StringLength | Builtin::NormalizeSpace
        | Builtin::Number => Some((0, 1)),
        Builtin::Count | Builtin::Truth | Builtin::Not | Builtin::BooleanFromString | Builtin::Sum
        | Builtin::Floor | Builtin::Ceiling | Builtin::Int | Builtin::Abs | Builtin::Log
        | Builtin::Log10 | Builtin::Exp | Builtin::Sqrt | Builtin::CountSelected
        | Builtin::Once => Some((1, 1)),
        Builtin::Round => Some((1, 2)),
        Builtin::Contains | Builtin::StartsWith | Builtin::EndsWith | Builtin::SubstringBefore
        | Builtin::SubstringAfter | Builtin::Pow | Builtin::Selected | Builtin::SelectedAt
        | Builtin::Join | Builtin::Coalesce | Builtin::FormatDate | Builtin::Regex
        | Builtin::ChoiceName => Some((2, 2)),
        Builtin::Substring | Builtin::Substr => Some((2, 3)),
        Builtin::Translate | Builtin::If => Some((3, 3)),
        Builtin::Concat | Builtin::Min | Builtin::Max | Builtin::Missing => None,
    }
}

// ---------------------------------------------------------------------------
// Functions of plain values
// ---------------------------------------------------------------------------

pub open spec fn texts_seen(r: Result<Vec<String>, String>) -> Result<Seq<Seq<char>>, Seq<char>> {
    match r {
        Ok(v) => Ok(texts(v@)),
        Err(e) => Err(e@),
    }
}

fn strings_of(instance: &Instance, nodes: &Vec<NodeId>) -> (r: Result<Vec<String>, String>)
    requires
        instance@.wf(),
    ensures
        texts_seen(r) == strings_from(instance@, nodes@, 0),
{
    let ghost all = strings_from(instance@, nodes@, 0);
    let mut out: Vec<String> = Vec::new();
    let n = nodes.len();
    proof {
        assert(texts(out@) == Seq::<Seq<char>>::empty());
        if let Ok(s) = all {
            assert(Seq::<Seq<char>>::empty() + s == s);
        }
    }
    for i in 0..n
        invariant
            instance@.wf(),
            n == nodes@.len(),
            all == strings_from(instance@, nodes@, 0),
            all == after(texts(out@), strings_from(instance@, nodes@, i as int)),
    {
        match string_of_node(instance, nodes[i]) {
            Err(e) => {
                return Err(e);
            },
            Ok(s) => {
                let ghost was = out@;
                let ghost text = s@;
                out.push(s);
                proof {
                    assert(texts(out@) == texts(was).push(text));
                    if let Ok(rest) = strings_from(instance@, nodes@, i + 1) {
                        assert(texts(was) + (seq![text] + rest) == texts(out@) + rest);
                    }
                }
            },
        }
    }
    assert(texts(out@) + Seq::<Seq<char>>::empty() == texts(out@));
    Ok(out)
}

fn join_strings(instance: &Instance, nodes: &Vec<NodeId>, separator: &str) -> (r: EvalResult)
    requires
        instance@.wf(),
    ensures
        seen(r) == text_value(joined_strings(instance@, nodes@, separator@)),
{
    match strings_of(instance, nodes) {
        Err(e) => Err(e),
        Ok(parts) => Ok(Value::String(joined(&parts, separator))),
    }
}

fn total(instance: &Instance, nodes: &Vec<NodeId>) -> (r: Result<Number, String>)
    requires
        instance@.wf(),
    ensures
        number_seen(r) == total_from(instance@, nodes@, 0, with_sign(true, 0)),
{
    let mut acc = Number::zero().negated();
    proof {
        crate::number::lemma_with_sign(false, 0);
    }
    let ghost all = total_from(instance@, nodes@, 0, with_sign(true, 0));
    let n = nodes.len();
    for i in 0..n
        invariant
            instance@.wf(),
            n == nodes@.len(),
            all == total_from(instance@, nodes@, 0, with_sign(true, 0)),
            all == total_from(instance@, nodes@, i as int, acc),
    {
        match string_of_node(instance, nodes[i]) {
            Err(e) => {
                return Err(e);
            },
            Ok(s) => {
                acc = acc.plus(string_to_number(s.as_str()));
            },
        }
    }
    Ok(acc)
}

pub open spec fn numbers_seen(r: Result<Vec<Number>, String>) -> Result<Seq<Number>, Seq<char>> {
    match r {
        Ok(v) => Ok(v@),
        Err(e) => Err(e@),
    }
}

fn numbers_in(instance: &Instance, value: &Value) -> (r: Result<Vec<Number>, String>)
    requires
        instance@.wf(),
    ensures
        numbers_seen(r) == numbers_of(value@, instance@),
{
    let mut out: Vec<Number> = Vec::new();
    match value {
        Value::NodeSet(nodes) => {
            let parts = match strings_of(instance, nodes) {
                Err(e) => {
                    return Err(e);
                },
                Ok(parts) => parts,
            };
            let n = parts.len();
            for i in 0..n
                invariant
                    n == parts@.len(),
                    out@ == numbers_of_texts(texts(parts@)).take(i as int),
            {
                out.push(string_to_number(parts[i].as_str()));
            }
            assert(out@ == numbers_of_texts(texts(parts@)));
            Ok(out)
        },
        other => match other.number(instance) {
            Err(e) => Err(e),
            Ok(n) => {
                out.push(n);
                assert(out@ == seq![n]);
                Ok(out)
            },
        },
    }
}

fn extreme_of(values: &Vec<Number>, smallest: bool) -> (r: Number)
    ensures
        r == extreme(values@, smallest),
{
    let n = values.len();
    if n == 0 {
        return Number::nan();
    }
    let mut low = Number::infinity(false);
    let mut high = Number::infinity(true);
    assert(values@.take(0) == Seq::<Number>::empty());
    for i in 0..n
        invariant
            n == values@.len(),
            n > 0,
            forall|j: int| 0 <= j < i ==> !is_nan(#[trigger] values@[j]),
            low == least(values@.take(i as int)),
            high == most(values@.take(i as int)),
    {
        if values[i].is_nan() {
            assert(any_nan(values@));
            return Number::nan();
        }
        assert(values@.take(i + 1).drop_last() == values@.take(i as int));
        low = low.min(values[i]);
        high = high.max(values[i]);
    }
    assert(values@.take(n as int) == values@);
    if smallest {
        low
    } else {
        high
    }
}

fn place_of(n: Number, len: usize) -> (r: usize)
    ensures
        r == place(n, len as nat),
        r <= len,
{
    let i = n.to_usize();
    if i > len {
        len
    } else {
        i
    }
}

fn cut(s: &Vec<char>, from: usize, to: usize) -> (r: String)
    requires
        to <= s@.len(),
    ensures
        r@ == between(s@, from as int, to as int),
{
    if from >= to {
        let r = String::new();
        assert(r@ == Seq::<char>::empty());
        r
    } else {
        slice(s, from, to)
    }
}

fn substring_of(text: &str, start: Number, count: Option<Number>) -> (r: String)
    ensures
        r@ == substring(text@, start, count),
{
    let s = chars_of(text);
    let first = start.round();
    let end = match count {
        Some(n) => Some(first.plus(n.round())),
        None => None,
    };
    let mut out = String::new();
    let n = s.len();
    assert(s@.take(0) == Seq::<char>::empty());
    for i in 0..n
        invariant
            s@ == text@,
            n == s@.len(),
            first == whole(start, Toward::Nearest),
            end == (match count {
                Some(n) => Some(sum(first, whole(n, Toward::Nearest))),
                None => None,
            }),
            out@ == substring(s@.take(i as int), start, count),
    {
        assert(s@.take(i + 1).drop_last() == s@.take(i as int));
        let p = Number::from_count(i + 1);
        let before = match end {
            Some(end) => p.less(end),
            None => true,
        };
        if first.less_or_same(p) && before {
            out.push(s[i]);
        }
    }
    assert(s@.take(n as int) == s@);
    out
}

fn offset_of(n: Number, len: usize) -> (r: usize)
    ensures
        r == offset(n, len as nat),
        r <= len,
{
    let at = if n.less(Number::zero()) {
        Number::from_count(len).plus(n).max(Number::zero())
    } else {
        n.min(Number::from_count(len))
    };
    place_of(at, len)
}

fn translate(text: &str, from: &str, to: &str) -> (r: String)
    ensures
        r@ == translated(text@, from@, to@),
{
    let s = chars_of(text);
    let f = chars_of(from);
    let t = chars_of(to);
    let mut out = String::new();
    let n = s.len();
    assert(s@.take(0) == Seq::<char>::empty());
    assert(out@ == Seq::<char>::empty());
    for i in 0..n
        invariant
            n == s@.len(),
            f@ == from@,
            t@ == to@,
            out@ == translated(s@.take(i as int), from@, to@),
    {
        assert(s@.take(i + 1).drop_last() == s@.take(i as int));
        let c = s[i];
        let mut j: usize = 0;
        while j < f.len() && f[j] != c
            invariant
                f@ == from@,
                j <= f@.len(),
                first_place(from@, c, 0) == first_place(from@, c, j as int),
            decreases f@.len() - j,
        {
            j = j + 1;
        }
        if j >= f.len() {
            out.push(c);
        } else if j < t.len() {
            out.push(t[j]);
        }
    }
    assert(s@.take(n as int) == s@);
    out
}

fn round_to(value: Number, places: Number) -> (r: Number)
    ensures
        r == rounded_to(value, places),
{
    let factor = Number::from_count(10).powf(places.trunc());
    value.times(factor).round().over(factor)
}

fn numeric_of(b: Builtin, n: Number) -> (r: Number)
    ensures
        r == numeric(b, n),
{
    match b {
        Builtin::Floor => n.floor(),
        Builtin::Ceiling => n.ceil(),
        Builtin::Int => n.trunc(),
        Builtin::Abs => n.abs(),
        Builtin::Log => n.ln(),
        Builtin::Log10 => n.log10(),
        Builtin::Exp => n.exp(),
        _ => n.sqrt(),
    }
}

fn has_word(s: &str, word: &str) -> (r: bool)
    ensures
        r == words(s@).contains(word@),
{
    let list = words_of(s);
    let n = list.len();
    for i in 0..n
        invariant
            n == list@.len(),
            texts(list@) == words(s@),
            forall|j: int| 0 <= j < i ==> words(s@)[j] != word@,
    {
        assert(texts(list@)[i as int] == list@[i as int]@);
        if same(list[i].as_str(), word) {
            return true;
        }
    }
    false
}

fn textual_of(b: Builtin, s: &str, part: &str) -> (r: Value)
    ensures
        r@ == textual(b, s@, part@),
{
    match b {
        Builtin::Contains => Value::Boolean(holds(s, part)),
        Builtin::StartsWith => Value::Boolean(starts(s, part)),
        Builtin::EndsWith => Value::Boolean(ends(s, part)),
        Builtin::SubstringBefore => {
            let a = chars_of(s);
            match found(&a, &chars_of(part)) {
                Some(i) => {
                    let r = slice(&a, 0, i);
                    assert(r@ == a@.take(i as int));
                    Value::String(r)
                },
                None => {
                    let r = String::new();
                    assert(r@ == Seq::<char>::empty());
                    Value::String(r)
                },
            }
        },
        Builtin::SubstringAfter => {
            let a = chars_of(s);
            let p = chars_of(part);
            match found(&a, &p) {
                Some(i) => {
                    let n = a.len();
                    let r = slice(&a, i + p.len(), n);
                    assert(r@ == a@.skip(i + p@.len()));
                    Value::String(r)
                },
                None => {
                    let r = String::new();
                    assert(r@ == Seq::<char>::empty());
                    Value::String(r)
                },
            }
        },
        _ => Value::Boolean(has_word(s, trimmed(part).as_str())),
    }
}

fn word(s: &str, index: Number) -> (r: String)
    ensures
        r@ == word_at(s@, index),
{
    let list = words_of(s);
    let i = index.to_usize();
    if index.less(Number::zero()) || i >= list.len() {
        let r = String::new();
        assert(r@ == Seq::<char>::empty());
        r
    } else {
        assert(texts(list@)[i as int] == list@[i as int]@);
        list[i].clone()
    }
}

fn empty_value() -> (r: Value)
    ensures
        r@ == ValueModel::String(Seq::empty()),
{
    let s = String::new();
    assert(s@ == Seq::<char>::empty());
    Value::String(s)
}

// ---------------------------------------------------------------------------
// A call
// ---------------------------------------------------------------------------

/// A call with all that it is evaluated in.
struct Call<'a, E> {
    name: &'a str,
    args: &'a Vec<Expr>,
    instance: &'a Instance,
    context: Context,
    env: &'a E,
}

impl<'a, E: Environment> Call<'a, E> {
    spec fn wf(&self) -> bool {
        self.instance@.wf()
    }

    spec fn tree(&self) -> Tree {
        self.instance@
    }

    spec fn models(&self) -> Seq<ExprModel> {
        exprs_model(*self.args)
    }

    spec fn results(&self) -> Seq<Evaluated> {
        results(self.models(), self.instance@, self.context@, self.env.model())
    }

    fn value(&self, i: usize) -> (r: EvalResult)
        requires
            self.wf(),
            i < self.args@.len(),
        ensures
            seen(r) == self.results()[i as int],
        decreases self.args, 1nat,
    {
        proof {
            lemma_models(*self.args);
            assert(decreases_to!(self.args => self.args@[i as int]));
        }
        evaluate(&self.args[i], self.instance, self.context, self.env)
    }

    fn text(&self, i: usize) -> (r: Result<String, String>)
        requires
            self.wf(),
            i < self.args@.len(),
        ensures
            seen(r) == text_result(self.results()[i as int], self.tree()),
        decreases self.args, 2nat,
    {
        match self.value(i) {
            Err(e) => Err(e),
            Ok(v) => v.text(self.instance),
        }
    }

    fn number(&self, i: usize) -> (r: Result<Number, String>)
        requires
            self.wf(),
            i < self.args@.len(),
        ensures
            number_seen(r) == number_result(self.results()[i as int], self.tree()),
        decreases self.args, 2nat,
    {
        match self.value(i) {
            Err(e) => Err(e),
            Ok(v) => v.number(self.instance),
        }
    }

    fn truth(&self, i: usize) -> (r: Result<bool, String>)
        requires
            self.wf(),
            i < self.args@.len(),
        ensures
            crate::eval::comparison::found(r) == truth_result(self.results()[i as int]),
        decreases self.args, 2nat,
    {
        match self.value(i) {
            Err(e) => Err(e),
            Ok(v) => Ok(v.to_boolean(self.instance)),
        }
    }

    fn text_or_here(&self) -> (r: Result<String, String>)
        requires
            self.wf(),
        ensures
            seen(r) == text_or_here(self.results(), self.tree(), self.context@),
        decreases self.args, 3nat,
    {
        proof {
            lemma_models(*self.args);
        }
        if self.args.len() == 0 {
            string_of_node(self.instance, self.context.node)
        } else {
            self.text(0)
        }
    }

    fn node_name(&self, node: NodeId) -> (r: EvalResult)
        ensures
            seen(r) == if self.tree().has(node) {
                Ok(ValueModel::String(self.tree().name(node)))
            } else {
                Err(crate::eval::value::stray(node))
            },
    {
        if node.0 < self.instance.len() {
            Ok(Value::String(self.instance.node(node).name.clone()))
        } else {
            Err(stray_text(node))
        }
    }

    fn name_of(&self) -> (r: EvalResult)
        requires
            self.wf(),
        ensures
            seen(r) == name_value(self.name@, self.results(), self.tree(), self.context@),
        decreases self.args, 3nat,
    {
        proof {
            lemma_models(*self.args);
        }
        if self.args.len() == 0 {
            return self.node_name(self.context.node);
        }
        match self.value(0) {
            Err(e) => Err(e),
            Ok(Value::NodeSet(nodes)) => {
                if nodes.len() == 0 {
                    Ok(empty_value())
                } else {
                    self.node_name(nodes[0])
                }
            },
            Ok(other) => Err(
                cat3(self.name, "() names a node, and was given ", kind_name(&other)),
            ),
        }
    }

    fn concat(&self) -> (r: EvalResult)
        requires
            self.wf(),
        ensures
            seen(r) == concat_value(self.results(), self.tree()),
        decreases self.args, 3nat,
    {
        proof {
            lemma_models(*self.args);
        }
        let n = self.args.len();
        if n == 1 {
            if let Ok(Value::NodeSet(nodes)) = self.value(0) {
                return join_strings(self.instance, &nodes, "");
            }
        }
        let ghost all = concatenated(self.results(), self.tree(), 0);
        let mut out = String::new();
        proof {
            assert(out@ == Seq::<char>::empty());
            if let Ok(s) = all {
                assert(Seq::<char>::empty() + s == s);
            }
        }
        for i in 0..n
            invariant
                self.wf(),
                n == self.args@.len(),
                n == self.results().len(),
                all == concatenated(self.results(), self.tree(), 0),
                concat_value(self.results(), self.tree()) == text_value(all),
                all == after(out@, concatenated(self.results(), self.tree(), i as int)),
        {
            match self.text(i) {
                Err(e) => {
                    return Err(e);
                },
                Ok(s) => {
                    let ghost was = out@;
                    out.append(s.as_str());
                    proof {
                        if let Ok(rest) = concatenated(self.results(), self.tree(), i + 1) {
                            assert(was + (s@ + rest) == out@ + rest);
                        }
                    }
                },
            }
        }
        assert(out@ + Seq::<char>::empty() == out@);
        Ok(Value::String(out))
    }

    fn substring(&self) -> (r: EvalResult)
        requires
            self.wf(),
            2 <= self.args@.len() <= 3,
        ensures
            seen(r) == substring_value(self.results(), self.tree()),
        decreases self.args, 3nat,
    {
        proof {
            lemma_models(*self.args);
        }
        let s = match self.text(0) {
            Err(e) => {
                return Err(e);
            },
            Ok(s) => s,
        };
        let start = match self.number(1) {
            Err(e) => {
                return Err(e);
            },
            Ok(n) => n,
        };
        let count = if self.args.len() == 3 {
            match self.number(2) {
                Err(e) => {
                    return Err(e);
                },
                Ok(n) => Some(n),
            }
        } else {
            None
        };
        Ok(Value::String(substring_of(s.as_str(), start, count)))
    }

    fn substr(&self) -> (r: EvalResult)
        requires
            self.wf(),
            2 <= self.args@.len() <= 3,
        ensures
            seen(r) == substr_value(self.results(), self.tree()),
        decreases self.args, 3nat,
    {
        proof {
            lemma_models(*self.args);
        }
        let s = match self.text(0) {
            Err(e) => {
                return Err(e);
            },
            Ok(s) => chars_of(s.as_str()),
        };
        let from = match self.number(1) {
            Err(e) => {
                return Err(e);
            },
            Ok(n) => offset_of(n, s.len()),
        };
        let to = if self.args.len() == 3 {
            match self.number(2) {
                Err(e) => {
                    return Err(e);
                },
                Ok(n) => offset_of(n, s.len()),
            }
        } else {
            s.len()
        };
        Ok(Value::String(cut(&s, from, to)))
    }

    fn translate(&self) -> (r: EvalResult)
        requires
            self.wf(),
            self.args@.len() == 3,
        ensures
            seen(r) == translate_value(self.results(), self.tree()),
        decreases self.args, 3nat,
    {
        proof {
            lemma_models(*self.args);
        }
        let s = match self.text(0) {
            Err(e) => {
                return Err(e);
            },
            Ok(s) => s,
        };
        let from = match self.text(1) {
            Err(e) => {
                return Err(e);
            },
            Ok(s) => s,
        };
        match self.text(2) {
            Err(e) => Err(e),
            Ok(to) => Ok(Value::String(translate(s.as_str(), from.as_str(), to.as_str()))),
        }
    }

    fn textual(&self, b: Builtin) -> (r: EvalResult)
        requires
            self.wf(),
            self.args@.len() == 2,
        ensures
            seen(r) == textual_value(b, self.results(), self.tree()),
        decreases self.args, 3nat,
    {
        let s = match self.text(0) {
            Err(e) => {
                return Err(e);
            },
            Ok(s) => s,
        };
        match self.text(1) {
            Err(e) => Err(e),
            Ok(part) => Ok(textual_of(b, s.as_str(), part.as_str())),
        }
    }

    fn round(&self) -> (r: EvalResult)
        requires
            self.wf(),
            1 <= self.args@.len() <= 2,
        ensures
            seen(r) == round_value(self.results(), self.tree()),
        decreases self.args, 3nat,
    {
        proof {
            lemma_models(*self.args);
        }
        let value = match self.number(0) {
            Err(e) => {
                return Err(e);
            },
            Ok(n) => n,
        };
        if self.args.len() == 1 {
            return Ok(Value::Number(value.round()));
        }
        match self.number(1) {
            Err(e) => Err(e),
            Ok(places) => Ok(Value::Number(round_to(value, places))),
        }
    }

    #[verifier::rlimit(60)]
    #[verifier::spinoff_prover]
    fn extreme(&self, smallest: bool) -> (r: EvalResult)
        requires
            self.wf(),
        ensures
            seen(r) == match all_numbers(self.results(), self.tree(), 0) {
                Err(e) => Err(e),
                Ok(s) => Ok(ValueModel::Number(extreme(s, smallest))),
            },
        decreases self.args, 3nat,
    {
        proof {
            lemma_models(*self.args);
        }
        let ghost all = all_numbers(self.results(), self.tree(), 0);
        let n = self.args.len();
        let mut values: Vec<Number> = Vec::new();
        proof {
            if let Ok(s) = all {
                assert(Seq::<Number>::empty() + s == s);
            }
        }
        for i in 0..n
            invariant
                self.wf(),
                n == self.args@.len(),
                n == self.results().len(),
                all == all_numbers(self.results(), self.tree(), 0),
                all == after(values@, all_numbers(self.results(), self.tree(), i as int)),
        {
            let value = match self.value(i) {
                Err(e) => {
                    return Err(e);
                },
                Ok(value) => value,
            };
            match numbers_in(self.instance, &value) {
                Err(e) => {
                    return Err(e);
                },
                Ok(mut more) => {
                    let ghost was = values@;
                    let ghost part = more@;
                    values.append(&mut more);
                    proof {
                        if let Ok(rest) = all_numbers(self.results(), self.tree(), i + 1) {
                            assert(was + (part + rest) == values@ + rest);
                        }
                    }
                },
            }
        }
        assert(values@ + Seq::<Number>::empty() == values@);
        Ok(Value::Number(extreme_of(&values, smallest)))
    }

    fn join(&self) -> (r: EvalResult)
        requires
            self.wf(),
            self.args@.len() == 2,
        ensures
            seen(r) == join_value(self.results(), self.tree()),
        decreases self.args, 3nat,
    {
        let separator = match self.text(0) {
            Err(e) => {
                return Err(e);
            },
            Ok(s) => s,
        };
        match self.value(1) {
            Err(e) => Err(e),
            Ok(Value::NodeSet(nodes)) => join_strings(self.instance, &nodes, separator.as_str()),
            Ok(other) => match other.text(self.instance) {
                Err(e) => Err(e),
                Ok(s) => Ok(Value::String(s)),
            },
        }
    }

    fn format_date(&self) -> (r: EvalResult)
        requires
            self.wf(),
            self.args@.len() == 2,
        ensures
            seen(r) == date_value(self.name@, self.results(), self.tree()),
        decreases self.args, 3nat,
    {
        let value = match self.text(0) {
            Err(e) => {
                return Err(e);
            },
            Ok(s) => s,
        };
        if blank(value.as_str()) {
            return Ok(empty_value());
        }
        let parts = match read_iso(value.as_str()) {
            None => {
                return Err(
                    cat4(
                        self.name,
                        "(): ",
                        quote(value.as_str()).as_str(),
                        " is not an ISO date or date-time",
                    ),
                );
            },
            Some(parts) => parts,
        };
        match self.text(1) {
            Err(e) => Err(e),
            Ok(format) => match format_date_parts(&parts, format.as_str()) {
                Err(e) => Err(e),
                Ok(s) => Ok(Value::String(s)),
            },
        }
    }

    fn question(&self) -> (r: Result<String, String>)
        requires
            self.wf(),
            self.args@.len() == 2,
        ensures
            seen(r) == question_of(self.models()[1], self.results()[1], self.tree()),
        decreases self.args, 3nat,
    {
        proof {
            lemma_models(*self.args);
        }
        match &self.args[1] {
            Expr::Literal(path) => Ok(trimmed(path.as_str())),
            _ => match self.text(1) {
                Err(e) => Err(e),
                Ok(s) => Ok(trimmed(s.as_str())),
            },
        }
    }

    fn choice_name(&self) -> (r: EvalResult)
        requires
            self.wf(),
            self.args@.len() == 2,
        ensures
            seen(r) == choice_value(
                self.name@,
                self.models(),
                self.results(),
                self.tree(),
                self.env.model(),
            ),
        decreases self.args, 4nat,
    {
        let value = match self.text(0) {
            Err(e) => {
                return Err(e);
            },
            Ok(s) => s,
        };
        if blank(value.as_str()) {
            return Ok(empty_value());
        }
        let question = match self.question() {
            Err(e) => {
                return Err(e);
            },
            Ok(s) => s,
        };
        match self.env.choice_label(value.as_str(), question.as_str()) {
            Some(label) => Ok(Value::String(label)),
            None => Err(
                cat6(
                    self.name,
                    "(): no choice ",
                    quote(value.as_str()).as_str(),
                    " for ",
                    question.as_str(),
                    NO_CHOICES,
                ),
            ),
        }
    }

    fn counted(&self) -> (r: EvalResult)
        requires
            self.wf(),
            self.args@.len() == 1,
        ensures
            seen(r) == applied(
                Builtin::Count,
                self.name@,
                self.models(),
                self.results(),
                self.tree(),
                self.context@,
                self.env.model(),
            ),
        decreases self.args, 3nat,
    {
        match self.value(0) {
            Err(e) => Err(e),
            Ok(Value::NodeSet(nodes)) => Ok(Value::Number(Number::from_count(nodes.len()))),
            Ok(other) => Err(cat2("count() counts nodes, and was given ", kind_name(&other))),
        }
    }

    fn summed(&self) -> (r: EvalResult)
        requires
            self.wf(),
            self.args@.len() == 1,
        ensures
            seen(r) == applied(
                Builtin::Sum,
                self.name@,
                self.models(),
                self.results(),
                self.tree(),
                self.context@,
                self.env.model(),
            ),
        decreases self.args, 3nat,
    {
        match self.value(0) {
            Err(e) => Err(e),
            Ok(Value::NodeSet(nodes)) => match total(self.instance, &nodes) {
                Err(e) => Err(e),
                Ok(n) => Ok(Value::Number(n)),
            },
            Ok(other) => Err(cat2("sum() adds up a node-set, and was given ", kind_name(&other))),
        }
    }

    fn apply(&self, b: Builtin) -> (r: EvalResult)
        requires
            self.wf(),
            arity(b) matches Some((low, high)) ==> low <= self.args@.len() <= high,
        ensures
            seen(r) == applied(
                b,
                self.name@,
                self.models(),
                self.results(),
                self.tree(),
                self.context@,
                self.env.model(),
            ),
        decreases self.args, 5nat,
    {
        proof {
            lemma_models(*self.args);
        }
        match b {
            Builtin::Count => self.counted(),
            Builtin::Position => Ok(Value::Number(Number::from_count(self.context.position))),
            Builtin::Last => Ok(Value::Number(Number::from_count(self.context.size))),
            Builtin::Name => self.name_of(),
            Builtin::Text => match self.text_or_here() {
                Err(e) => Err(e),
                Ok(s) => Ok(Value::String(s)),
            },
            Builtin::Concat => self.concat(),
            Builtin::StringLength => match self.text_or_here() {
                Err(e) => Err(e),
                Ok(s) => Ok(Value::Number(Number::from_count(chars_of(s.as_str()).len()))),
            },
            Builtin::NormalizeSpace => match self.text_or_here() {
                Err(e) => Err(e),
                Ok(s) => Ok(Value::String(joined(&words_of(s.as_str()), " "))),
            },
            Builtin::Contains | Builtin::StartsWith | Builtin::EndsWith | Builtin::SubstringBefore
            | Builtin::SubstringAfter | Builtin::Selected => self.textual(b),
            Builtin::Substring => self.substring(),
            Builtin::Substr => self.substr(),
            Builtin::Translate => self.translate(),
            Builtin::Truth => match self.truth(0) {
                Err(e) => Err(e),
                Ok(v) => Ok(Value::Boolean(v)),
            },
            Builtin::Not => match self.truth(0) {
                Err(e) => Err(e),
                Ok(v) => Ok(Value::Boolean(!v)),
            },
            Builtin::True => Ok(Value::Boolean(true)),
            Builtin::False => Ok(Value::Boolean(false)),
            Builtin::BooleanFromString => match self.text(0) {
                Err(e) => Err(e),
                Ok(s) => Ok(Value::Boolean(same(s.as_str(), "1") || same(s.as_str(), "true"))),
            },
            Builtin::Number => {
                if self.args.len() == 0 {
                    match string_of_node(self.instance, self.context.node) {
                        Err(e) => Err(e),
                        Ok(s) => Ok(Value::Number(string_to_number(s.as_str()))),
                    }
                } else {
                    match self.number(0) {
                        Err(e) => Err(e),
                        Ok(n) => Ok(Value::Number(n)),
                    }
                }
            },
            Builtin::Sum => self.summed(),
            Builtin::Floor | Builtin::Ceiling | Builtin::Int | Builtin::Abs | Builtin::Log
            | Builtin::Log10 | Builtin::Exp | Builtin::Sqrt => match self.number(0) {
                Err(e) => Err(e),
                Ok(n) => Ok(Value::Number(numeric_of(b, n))),
            },
            Builtin::Round => self.round(),
            Builtin::Pow => {
                let x = match self.number(0) {
                    Err(e) => {
                        return Err(e);
                    },
                    Ok(x) => x,
                };
                match self.number(1) {
                    Err(e) => Err(e),
                    Ok(y) => Ok(Value::Number(x.powf(y))),
                }
            },
            Builtin::Min => self.extreme(true),
            Builtin::Max => self.extreme(false),
            Builtin::SelectedAt => {
                let s = match self.text(0) {
                    Err(e) => {
                        return Err(e);
                    },
                    Ok(s) => s,
                };
                match self.number(1) {
                    Err(e) => Err(e),
                    Ok(index) => Ok(Value::String(word(s.as_str(), index))),
                }
            },
            Builtin::CountSelected => match self.text(0) {
                Err(e) => Err(e),
                Ok(s) => {
                    let list = words_of(s.as_str());
                    assert(texts(list@).len() == list@.len());
                    Ok(Value::Number(Number::from_count(list.len())))
                },
            },
            Builtin::Join => self.join(),
            Builtin::If => match self.truth(0) {
                Err(e) => Err(e),
                Ok(v) => {
                    if v {
                        self.value(1)
                    } else {
                        self.value(2)
                    }
                },
            },
            Builtin::Coalesce => match self.text(0) {
                Err(e) => Err(e),
                Ok(s) => {
                    if s.as_str().is_empty() {
                        match self.text(1) {
                            Err(e) => Err(e),
                            Ok(other) => Ok(Value::String(other)),
                        }
                    } else {
                        Ok(Value::String(s))
                    }
                },
            },
            Builtin::Once => match string_of_node(self.instance, self.context.node) {
                Err(e) => Err(e),
                Ok(s) => Ok(Value::String(s)),
            },
            Builtin::Today => Ok(Value::String(self.env.today())),
            Builtin::Now => Ok(Value::String(self.env.now())),
            Builtin::FormatDate => self.format_date(),
            Builtin::Regex => {
                let value = match self.text(0) {
                    Err(e) => {
                        return Err(e);
                    },
                    Ok(s) => s,
                };
                match self.text(1) {
                    Err(e) => Err(e),
                    Ok(pattern) => regex_matches(value.as_str(), pattern.as_str()),
                }
            },
            Builtin::ChoiceName => self.choice_name(),
            Builtin::Missing => Err(cat2(self.name, NOT_IMPLEMENTED)),
        }
    }
}

fn arity_message(name: &str, low: usize, high: usize, got: usize) -> (r: String)
    ensures
        r@ == name@ + "() takes "@ + arity_text(low as nat, high as nat) + " argument(s), got "@
            + decimal(got as nat),
{
    let expected = if low == high {
        count_text(low)
    } else {
        cat3(count_text(low).as_str(), " or ", count_text(high).as_str())
    };
    let mut s = cat3(name, "() takes ", expected.as_str());
    s.append(" argument(s), got ");
    s.append(count_text(got).as_str());
    s
}

/// Call a function of the library by its name.
pub fn call<E: Environment>(
    name: &str,
    args: &Vec<Expr>,
    instance: &Instance,
    context: Context,
    env: &E,
) -> (r: EvalResult)
    requires
        instance@.wf(),
    ensures
        seen(r) == called(
            name@,
            exprs_model(*args),
            results(exprs_model(*args), instance@, context@, env.model()),
            instance@,
            context@,
            env.model(),
        ),
    decreases args, 6nat,
{
    proof {
        lemma_models(*args);
    }
    let b = match named_builtin(name) {
        None => {
            return Err(cat3("unknown function ", name, "()"));
        },
        Some(b) => b,
    };
    if let Some((low, high)) = arity_of(b) {
        if args.len() < low || args.len() > high {
            return Err(arity_message(name, low, high, args.len()));
        }
    }
    let c = Call { name, args, instance, context, env };
    c.apply(b)
}

/// Number formatting is shared with the evaluator, and offered here so
/// callers testing functions do not reach across modules.
pub fn number_to_string(n: Number) -> (r: String)
    ensures
        r@ == number_text(n),
{
    format_number(n)
}

} // verus!
