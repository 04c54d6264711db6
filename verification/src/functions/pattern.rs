//! Pattern matching.
//!
//! Elsewhere a pattern matches any part of the value unless it is anchored;
//! JavaRosa anchors it always, and JavaRosa is what runs on the devices whose
//! submissions this checks. Matching anywhere would judge answers by another
//! rule than the collecting app did.

use crate::eval::value::{Value, ValueModel};
use crate::text::{cat3, cat4, quote, quoted, seen};
use vstd::prelude::*;

verus! {

/// What `regex::Regex::new` says of a pattern that it cannot build, and
/// nothing of one that it can.
pub uninterp spec fn regex_error(pattern: Seq<char>) -> Option<Seq<char>>;

/// What `regex::Regex::is_match` answers for the expression of a pattern
/// and a text: whether the expression matches anywhere in the text.
pub uninterp spec fn regex_is_match(pattern: Seq<char>, text: Seq<char>) -> bool;

/// The pattern that matches where another matches the whole.
pub open spec fn anchored(pattern: Seq<char>) -> Seq<char> {
    "^(?:"@ + pattern + ")$"@
}

/// What is made of the answer to a search for a pattern.
pub open spec fn match_value(
    pattern: Seq<char>,
    outcome: Result<bool, Seq<char>>,
) -> Result<ValueModel, Seq<char>> {
    match outcome {
        Ok(found) => Ok(ValueModel::Boolean(found)),
        Err(why) => Err(
            "regex(): "@ + quoted(pattern) + " is not a pattern this engine can build — "@ + why,
        ),
    }
}

pub open spec fn searched(pattern: Seq<char>, text: Seq<char>) -> Result<bool, Seq<char>> {
    match regex_error(pattern) {
        Some(why) => Err(why),
        None => Ok(regex_is_match(pattern, text)),
    }
}

/// JavaRosa semantics: the pattern must match the whole value.
pub open spec fn matched(value: Seq<char>, pattern: Seq<char>) -> Result<ValueModel, Seq<char>> {
    match_value(pattern, searched(anchored(pattern), value))
}

pub open spec fn found_seen(r: Result<bool, String>) -> Result<bool, Seq<char>> {
    match r {
        Ok(b) => Ok(b),
        Err(e) => Err(e@),
    }
}

/// `regex::Regex::new` builds an expression from a pattern, and
/// `regex::Regex::is_match` says whether it matches anywhere in a text.
/// Where no expression can be built, the error is handed on as its text.
/// Which patterns can be built, with what error the others come back and
/// what an expression matches is left to the crate: each is a function of
/// the pattern, and of the text where there is one.
#[verifier::external_body]
fn search(pattern: &str, text: &str) -> (r: Result<bool, String>)
    ensures
        match r {
            Ok(found) => regex_error(pattern@) is None && found == regex_is_match(pattern@, text@),
            Err(why) => regex_error(pattern@) == Some(why@),
        },
{
    match regex::Regex::new(pattern) {
        Ok(expression) => Ok(expression.is_match(text)),
        Err(why) => Err(why.to_string()),
    }
}

/// What `regex()` makes of the answer to a search for a pattern.
pub fn regex_value(pattern: &str, outcome: Result<bool, String>) -> (r: Result<Value, String>)
    ensures
        seen(r) == match_value(pattern@, found_seen(outcome)),
{
    match outcome {
        Ok(found) => Ok(Value::Boolean(found)),
        Err(why) => Err(
            cat4(
                "regex(): ",
                quote(pattern).as_str(),
                " is not a pattern this engine can build — ",
                why.as_str(),
            ),
        ),
    }
}

/// `regex()`: whether a pattern matches the whole of a value.
pub fn regex_matches(value: &str, pattern: &str) -> (r: Result<Value, String>)
    ensures
        seen(r) == matched(value@, pattern@),
{
    let whole = cat3("^(?:", pattern, ")$");
    regex_value(pattern, search(whole.as_str(), value))
}

} // verus!
