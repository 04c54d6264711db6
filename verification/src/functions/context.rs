//! What functions take where they are given nothing, and what choices are
//! called.

use crate::eval::value::number_of_text;
use crate::eval::{Here, Surroundings};
use crate::functions::laws::{call_of, lemma_call, number, says, text};
use crate::functions::names::{lemma_number_names, lemma_other_names, lemma_text_names};
use crate::functions::Builtin;
use crate::number::laws::of_int;
use crate::parser::ast::ExprModel;
use crate::text::laws::{all_white, law_trim_takes_off_white_space};
use crate::text::{is_blank, is_white};
use crate::tree::Tree;
use vstd::prelude::*;

verus! {

/// Without an argument, a function of one text takes what the context node
/// holds.
pub proof fn law_context_by_default(t: Tree, here: Here, env: Surroundings)
    requires
        t.has(here.node),
    ensures
        ({
            let held = t.string_value(here.node);
            let none = Seq::<ExprModel>::empty();
            &&& call_of("string-length"@, none, t, here, env) == number(of_int(held.len() as int))
            &&& call_of("number"@, none, t, here, env) == number(number_of_text(held))
            &&& call_of("normalize-space"@, none, t, here, env) == call_of(
                "normalize-space"@,
                seq![ExprModel::Literal(held)],
                t,
                here,
                env,
            )
        }),
{
    lemma_text_names();
    lemma_number_names();
    let none = Seq::<ExprModel>::empty();
    let one = seq![ExprModel::Literal(t.string_value(here.node))];
    assert(one[0] == ExprModel::Literal(t.string_value(here.node)));
    lemma_call(Builtin::StringLength, "string-length"@, none, t, here, env);
    lemma_call(Builtin::Number, "number"@, none, t, here, env);
    lemma_call(Builtin::NormalizeSpace, "normalize-space"@, none, t, here, env);
    lemma_call(Builtin::NormalizeSpace, "normalize-space"@, one, t, here, env);
}

/// A choice is called what the form calls it, for the question it belongs
/// to, whatever white space stands around the question's path; no answer has
/// no label, and a choice that the form does not know is refused.
pub proof fn law_choices_have_labels(
    a: ExprModel,
    value: Seq<char>,
    gap: Seq<char>,
    question: Seq<char>,
    end: Seq<char>,
    t: Tree,
    here: Here,
    env: Surroundings,
)
    requires
        says(a, value, t, here, env),
        all_white(gap),
        all_white(end),
        question.len() > 0,
        !is_white(question[0]),
        !is_white(question.last()),
    ensures
        ({
            let b = ExprModel::Literal(gap + question + end);
            let r = call_of("jr:choice-name"@, seq![a, b], t, here, env);
            &&& is_blank(value) ==> r == text(Seq::empty())
            &&& !is_blank(value) ==> match (env.label)(value, question) {
                Some(label) => r == text(label),
                None => r is Err,
            }
        }),
{
    lemma_other_names();
    let b = ExprModel::Literal(gap + question + end);
    let args = seq![a, b];
    assert(args[0] == a && args[1] == b);
    lemma_call(Builtin::ChoiceName, "jr:choice-name"@, args, t, here, env);
    law_trim_takes_off_white_space(gap, question, end);
}

} // verus!
