//! rxeval — evaluate ODK/OpenRosa XForms logic.
//!
//! The rules a form carries (`relevant`, `constraint`, `required`,
//! `calculate`) are written in XPath, and until something evaluates them a
//! server can only take a device's word for what it collected.
//!
//! One engine, three places. On the server it checks what arrived. Compiled
//! to WebAssembly it drives a web form. Bound from R or Python it lets a
//! questionnaire's logic be exercised before anyone goes to the field.
//!
//! **What an expression can do.** These are XForms expressions, not a
//! scripting language: the grammar is XPath 1.0, the only inputs are the
//! instance tree and the environment handed in, and evaluation performs no
//! I/O, spawns nothing and cannot reach the host.
//!
//! **Nothing here guesses.** An expression this crate does not understand is
//! an error, never a default. A form engine that returns `false` for a
//! `relevant` it failed to parse hides a question and reports success, and
//! the damage shows up in the data weeks later.
//!
//! **What is proved.** Every function states what it returns for every
//! input, over mathematical models of documents, expressions and numbers,
//! and Verus checks that it does. What the library promises as a whole
//! stands in the functions named `law_*`.

use crate::eval::eval;
use crate::parser::grammar::parse_model;
use crate::rules::checking::at;
use crate::text::seen;
use vstd::prelude::*;

pub mod eval;
pub mod functions;
pub mod metadata;
pub mod number;
pub mod parser;
pub mod portability;
pub mod rules;
pub mod session;
pub mod table;
pub mod text;
pub mod tree;

pub use crate::eval::value::Value;
pub use crate::eval::{evaluate, Context, Environment, Fixed};
pub use crate::parser::ast::Expr;
pub use crate::parser::grammar::parse;
pub use crate::portability::{check_form, Breaks, Issue};
pub use crate::rules::{Binding, Clock, Form, Rules, Violation, ViolationKind};
pub use crate::session::{Outcome, Session};
pub use crate::tree::{Instance, NodeId};

verus! {

/// Parse and evaluate one expression against an instance, with `.` at the
/// root. The convenience path; a form engine keeps parsed expressions.
pub fn eval_str<E: Environment>(expression: &str, instance: &Instance, env: &E) -> (r: Result<
    Value,
    String,
>)
    requires
        instance@.wf(),
    ensures
        match parse_model(expression@) {
            Err(e) => r matches Err(m) && m@ == e,
            Ok(expr) => match instance@.root {
                None => r matches Err(m) && m@ == "the instance has no root element"@,
                Some(root) => seen(r) == eval(expr, instance@, at(root), env.model()),
            },
        },
{
    let expr = match parse(expression) {
        Err(e) => {
            return Err(e);
        },
        Ok(expr) => expr,
    };
    match instance.root() {
        None => Err("the instance has no root element".to_string()),
        Some(root) => evaluate(&expr, instance, Context::at(root), env),
    }
}

} // verus!
