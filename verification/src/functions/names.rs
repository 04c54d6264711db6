//! The names that functions are called by.

use crate::functions::{builtin, Builtin};
use vstd::prelude::*;

verus! {

proof fn lemma_spelled()
    ensures
        "count"@.len() == 5,
        "count"@[4] == 't',
        "position"@.len() == 8,
        "position"@[0] == 'p',
        "position"@[2] == 's',
        "last"@.len() == 4,
        "last"@[0] == 'l',
        "name"@.len() == 4,
        "name"@[0] == 'n',
        "local-name"@.len() == 10,
        "string"@.len() == 6,
        "string"@[2] == 'r',
        "concat"@.len() == 6,
        "concat"@[2] == 'n',
        "string-length"@.len() == 13,
        "normalize-space"@.len() == 15,
        "normalize-space"@[0] == 'n',
        "contains"@.len() == 8,
        "contains"@[0] == 'c',
        "contains"@[2] == 'n',
        "starts-with"@.len() == 11,
        "starts-with"@[1] == 't',
        "ends-with"@.len() == 9,
        "ends-with"@[0] == 'e',
        "substring-before"@.len() == 16,
        "substring-before"@[0] == 's',
        "substring-after"@.len() == 15,
        "substring-after"@[0] == 's',
        "substring"@.len() == 9,
        "substring"@[0] == 's',
        "substr"@.len() == 6,
        "substr"@[2] == 'b',
        "translate"@.len() == 9,
        "translate"@[0] == 't',
        "boolean"@.len() == 7,
        "boolean"@[1] == 'o',
        "not"@.len() == 3,
        "not"@[0] == 'n',
        "not"@[2] == 't',
        "true"@.len() == 4,
        "true"@[0] == 't',
        "false"@.len() == 5,
        "false"@[4] == 'e',
        "boolean-from-string"@.len() == 19,
        "number"@.len() == 6,
        "number"@[2] == 'm',
        "sum"@.len() == 3,
        "sum"@[0] == 's',
        "sum"@[2] == 'm',
        "floor"@.len() == 5,
        "floor"@[4] == 'r',
        "ceiling"@.len() == 7,
        "ceiling"@[1] == 'e',
        "round"@.len() == 5,
        "round"@[4] == 'd',
        "int"@.len() == 3,
        "int"@[0] == 'i',
        "int"@[2] == 't',
        "abs"@.len() == 3,
        "abs"@[0] == 'a',
        "abs"@[2] == 's',
        "pow"@.len() == 3,
        "pow"@[0] == 'p',
        "pow"@[2] == 'w',
        "log"@.len() == 3,
        "log"@[0] == 'l',
        "log"@[2] == 'g',
        "log10"@.len() == 5,
        "log10"@[4] == '0',
        "exp"@.len() == 3,
        "exp"@[0] == 'e',
        "exp"@[2] == 'p',
        "sqrt"@.len() == 4,
        "sqrt"@[0] == 's',
        "min"@.len() == 3,
        "min"@[0] == 'm',
        "min"@[2] == 'n',
        "max"@.len() == 3,
        "max"@[0] == 'm',
        "max"@[2] == 'x',
        "selected"@.len() == 8,
        "selected"@[0] == 's',
        "selected"@[2] == 'l',
        "selected-at"@.len() == 11,
        "selected-at"@[1] == 'e',
        "count-selected"@.len() == 14,
        "count-selected"@[0] == 'c',
        "join"@.len() == 4,
        "join"@[0] == 'j',
        "if"@.len() == 2,
        "coalesce"@.len() == 8,
        "coalesce"@[0] == 'c',
        "coalesce"@[2] == 'a',
        "once"@.len() == 4,
        "once"@[0] == 'o',
        "today"@.len() == 5,
        "today"@[4] == 'y',
        "now"@.len() == 3,
        "now"@[0] == 'n',
        "now"@[2] == 'w',
        "format-date"@.len() == 11,
        "format-date"@[1] == 'o',
        "format-date-time"@.len() == 16,
        "format-date-time"@[0] == 'f',
        "regex"@.len() == 5,
        "regex"@[4] == 'x',
        "jr:choice-name"@.len() == 14,
        "jr:choice-name"@[0] == 'j',
        "choice-name"@.len() == 11,
        "choice-name"@[1] == 'h',
        "pulldata"@.len() == 8,
        "pulldata"@[0] == 'p',
        "pulldata"@[2] == 'l',
        "indexed-repeat"@.len() == 14,
        "indexed-repeat"@[0] == 'i',
        "current"@.len() == 7,
        "current"@[1] == 'u',
        "randomize"@.len() == 9,
        "randomize"@[0] == 'r',
        "uuid"@.len() == 4,
        "uuid"@[0] == 'u',
        "digest"@.len() == 6,
        "digest"@[2] == 'g',
        "date"@.len() == 4,
        "date"@[0] == 'd',
        "date-time"@.len() == 9,
        "date-time"@[0] == 'd',
        "decimal-date-time"@.len() == 17,
        "decimal-time"@.len() == 12,
        "area"@.len() == 4,
        "area"@[0] == 'a',
        "distance"@.len() == 8,
        "distance"@[0] == 'd',
        "distance"@[2] == 's',
        "checklist"@.len() == 9,
        "checklist"@[0] == 'c',
        "weighted-checklist"@.len() == 18,
        "weighted-checklist"@[0] == 'w',
        "position-in-repeat"@.len() == 18,
        "position-in-repeat"@[0] == 'p',
        "instance"@.len() == 8,
        "instance"@[0] == 'i',
        "instance"@[2] == 's',
{
    reveal_strlit("count");
    reveal_strlit("position");
    reveal_strlit("last");
    reveal_strlit("name");
    reveal_strlit("local-name");
    reveal_strlit("string");
    reveal_strlit("concat");
    reveal_strlit("string-length");
    reveal_strlit("normalize-space");
    reveal_strlit("contains");
    reveal_strlit("starts-with");
    reveal_strlit("ends-with");
    reveal_strlit("substring-before");
    reveal_strlit("substring-after");
    reveal_strlit("substring");
    reveal_strlit("substr");
    reveal_strlit("translate");
    reveal_strlit("boolean");
    reveal_strlit("not");
    reveal_strlit("true");
    reveal_strlit("false");
    reveal_strlit("boolean-from-string");
    reveal_strlit("number");
    reveal_strlit("sum");
    reveal_strlit("floor");
    reveal_strlit("ceiling");
    reveal_strlit("round");
    reveal_strlit("int");
    reveal_strlit("abs");
    reveal_strlit("pow");
    reveal_strlit("log");
    reveal_strlit("log10");
    reveal_strlit("exp");
    reveal_strlit("sqrt");
    reveal_strlit("min");
    reveal_strlit("max");
    reveal_strlit("selected");
    reveal_strlit("selected-at");
    reveal_strlit("count-selected");
    reveal_strlit("join");
    reveal_strlit("if");
    reveal_strlit("coalesce");
    reveal_strlit("once");
    reveal_strlit("today");
    reveal_strlit("now");
    reveal_strlit("format-date");
    reveal_strlit("format-date-time");
    reveal_strlit("regex");
    reveal_strlit("jr:choice-name");
    reveal_strlit("choice-name");
    reveal_strlit("pulldata");
    reveal_strlit("indexed-repeat");
    reveal_strlit("current");
    reveal_strlit("randomize");
    reveal_strlit("uuid");
    reveal_strlit("digest");
    reveal_strlit("date");
    reveal_strlit("date-time");
    reveal_strlit("decimal-date-time");
    reveal_strlit("decimal-time");
    reveal_strlit("area");
    reveal_strlit("distance");
    reveal_strlit("checklist");
    reveal_strlit("weighted-checklist");
    reveal_strlit("position-in-repeat");
    reveal_strlit("instance");
}

pub proof fn lemma_text_names()
    ensures
        builtin("count"@) == Some(Builtin::Count),
        builtin("position"@) == Some(Builtin::Position),
        builtin("last"@) == Some(Builtin::Last),
        builtin("name"@) == Some(Builtin::Name),
        builtin("local-name"@) == Some(Builtin::Name),
        builtin("string"@) == Some(Builtin::Text),
        builtin("concat"@) == Some(Builtin::Concat),
        builtin("string-length"@) == Some(Builtin::StringLength),
        builtin("normalize-space"@) == Some(Builtin::NormalizeSpace),
        builtin("contains"@) == Some(Builtin::Contains),
        builtin("starts-with"@) == Some(Builtin::StartsWith),
        builtin("ends-with"@) == Some(Builtin::EndsWith),
        builtin("substring-before"@) == Some(Builtin::SubstringBefore),
        builtin("substring-after"@) == Some(Builtin::SubstringAfter),
        builtin("substring"@) == Some(Builtin::Substring),
        builtin("substr"@) == Some(Builtin::Substr),
        builtin("translate"@) == Some(Builtin::Translate),
        builtin("boolean"@) == Some(Builtin::Truth),
{
    lemma_spelled();
}

pub proof fn lemma_number_names()
    ensures
        builtin("not"@) == Some(Builtin::Not),
        builtin("true"@) == Some(Builtin::True),
        builtin("false"@) == Some(Builtin::False),
        builtin("boolean-from-string"@) == Some(Builtin::BooleanFromString),
        builtin("number"@) == Some(Builtin::Number),
        builtin("sum"@) == Some(Builtin::Sum),
        builtin("floor"@) == Some(Builtin::Floor),
        builtin("ceiling"@) == Some(Builtin::Ceiling),
        builtin("round"@) == Some(Builtin::Round),
        builtin("int"@) == Some(Builtin::Int),
        builtin("abs"@) == Some(Builtin::Abs),
        builtin("pow"@) == Some(Builtin::Pow),
        builtin("log"@) == Some(Builtin::Log),
        builtin("log10"@) == Some(Builtin::Log10),
        builtin("exp"@) == Some(Builtin::Exp),
        builtin("sqrt"@) == Some(Builtin::Sqrt),
        builtin("min"@) == Some(Builtin::Min),
        builtin("max"@) == Some(Builtin::Max),
{
    lemma_spelled();
}

pub proof fn lemma_other_names()
    ensures
        builtin("selected"@) == Some(Builtin::Selected),
        builtin("selected-at"@) == Some(Builtin::SelectedAt),
        builtin("count-selected"@) == Some(Builtin::CountSelected),
        builtin("join"@) == Some(Builtin::Join),
        builtin("if"@) == Some(Builtin::If),
        builtin("coalesce"@) == Some(Builtin::Coalesce),
        builtin("once"@) == Some(Builtin::Once),
        builtin("today"@) == Some(Builtin::Today),
        builtin("now"@) == Some(Builtin::Now),
        builtin("format-date"@) == Some(Builtin::FormatDate),
        builtin("format-date-time"@) == Some(Builtin::FormatDate),
        builtin("regex"@) == Some(Builtin::Regex),
        builtin("jr:choice-name"@) == Some(Builtin::ChoiceName),
        builtin("choice-name"@) == Some(Builtin::ChoiceName),
{
    lemma_spelled();
}

/// What is named and not implemented is called by these names.
pub proof fn lemma_missing_names()
    ensures
        builtin("pulldata"@) == Some(Builtin::Missing),
        builtin("indexed-repeat"@) == Some(Builtin::Missing),
        builtin("current"@) == Some(Builtin::Missing),
        builtin("randomize"@) == Some(Builtin::Missing),
        builtin("uuid"@) == Some(Builtin::Missing),
        builtin("digest"@) == Some(Builtin::Missing),
        builtin("date"@) == Some(Builtin::Missing),
        builtin("date-time"@) == Some(Builtin::Missing),
        builtin("decimal-date-time"@) == Some(Builtin::Missing),
        builtin("decimal-time"@) == Some(Builtin::Missing),
        builtin("area"@) == Some(Builtin::Missing),
        builtin("distance"@) == Some(Builtin::Missing),
        builtin("checklist"@) == Some(Builtin::Missing),
        builtin("weighted-checklist"@) == Some(Builtin::Missing),
        builtin("position-in-repeat"@) == Some(Builtin::Missing),
{
    lemma_spelled();
}

} // verus!
