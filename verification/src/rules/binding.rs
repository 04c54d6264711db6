//! Bindings, and what is found wrong with an answer.

use crate::parser::ast::{Expr, ExprModel};
use crate::text::{cat2, cat3, cat5, quote, quoted};
use vstd::prelude::*;

verus! {

/// One binding: everything the form says about one path.
#[derive(Debug)]
pub struct Binding {
    /// Absolute path in the instance, e.g. `/data/household/resident/age`.
    pub path: String,
    pub relevant: Option<Expr>,
    pub calculate: Option<Expr>,
    pub constraint: Option<Expr>,
    pub required: Option<Expr>,
    pub readonly: Option<Expr>,
    pub constraint_message: Option<String>,
    pub required_message: Option<String>,
    /// Where in the spreadsheet this came from, for error messages.
    pub row: usize,
}

/// What a binding says.
#[verifier::ext_equal]
pub struct BindingModel {
    pub path: Seq<char>,
    pub relevant: Option<ExprModel>,
    pub calculate: Option<ExprModel>,
    pub constraint: Option<ExprModel>,
    pub required: Option<ExprModel>,
    pub readonly: Option<ExprModel>,
    pub constraint_message: Option<Seq<char>>,
    pub required_message: Option<Seq<char>>,
    pub row: usize,
}

/// An option by what it holds.
pub open spec fn inside<T: View>(o: Option<T>) -> Option<T::V> {
    match o {
        Some(v) => Some(v@),
        None => None,
    }
}

impl View for Binding {
    type V = BindingModel;

    open spec fn view(&self) -> BindingModel {
        BindingModel {
            path: self.path@,
            relevant: inside(self.relevant),
            calculate: inside(self.calculate),
            constraint: inside(self.constraint),
            required: inside(self.required),
            readonly: inside(self.readonly),
            constraint_message: inside(self.constraint_message),
            required_message: inside(self.required_message),
            row: self.row,
        }
    }
}

pub(crate) fn copy_expr(e: &Option<Expr>) -> (r: Option<Expr>)
    ensures
        inside(r) == inside(*e),
{
    match e {
        Some(x) => Some(x.clone()),
        None => None,
    }
}

pub(crate) fn copy_text(s: &Option<String>) -> (r: Option<String>)
    ensures
        inside(r) == inside(*s),
{
    match s {
        Some(x) => Some(x.clone()),
        None => None,
    }
}

impl Clone for Binding {
    fn clone(&self) -> (r: Binding)
        ensures
            r@ == self@,
    {
        Binding {
            path: self.path.clone(),
            relevant: copy_expr(&self.relevant),
            calculate: copy_expr(&self.calculate),
            constraint: copy_expr(&self.constraint),
            required: copy_expr(&self.required),
            readonly: copy_expr(&self.readonly),
            constraint_message: copy_text(&self.constraint_message),
            required_message: copy_text(&self.required_message),
            row: self.row,
        }
    }
}

/// A binding that says nothing of its path.
pub open spec fn bare_binding(path: Seq<char>) -> BindingModel {
    BindingModel {
        path,
        relevant: None,
        calculate: None,
        constraint: None,
        required: None,
        readonly: None,
        constraint_message: None,
        required_message: None,
        row: 0,
    }
}

impl Binding {
    pub fn new(path: &str) -> (r: Binding)
        ensures
            r@ == bare_binding(path@),
    {
        Binding {
            path: path.to_string(),
            relevant: None,
            calculate: None,
            constraint: None,
            required: None,
            readonly: None,
            constraint_message: None,
            required_message: None,
            row: 0,
        }
    }
}

/// What a rule found wrong, and where.
#[derive(Debug, PartialEq)]
pub struct Violation {
    /// The binding's path, as the form wrote it.
    pub path: String,
    /// The node's actual path, which differs inside a repeat.
    pub node_path: String,
    pub kind: ViolationKind,
    pub message: Option<String>,
}

#[derive(Debug, PartialEq)]
pub enum ViolationKind {
    /// The answer is present and the constraint rejects it.
    Constraint,
    /// The question is relevant, required, and unanswered.
    Required,
    /// The stored value is not what the form's own calculation produces.
    ///
    /// Recomputing on the server catches a device that was out of date, a
    /// form republished after collection began, or a submission that did
    /// not come from a form at all.
    Calculation { stored: String, computed: String },
    /// The expression could not be evaluated. Reported, never taken for
    /// granted: a rule that did not run has not passed.
    Failed(String),
}

#[verifier::ext_equal]
pub enum KindModel {
    Constraint,
    Required,
    Calculation { stored: Seq<char>, computed: Seq<char> },
    Failed(Seq<char>),
}

/// What a violation says.
#[verifier::ext_equal]
pub struct ViolationModel {
    pub path: Seq<char>,
    pub node_path: Seq<char>,
    pub kind: KindModel,
    pub message: Option<Seq<char>>,
}

impl View for ViolationKind {
    type V = KindModel;

    open spec fn view(&self) -> KindModel {
        match self {
            ViolationKind::Constraint => KindModel::Constraint,
            ViolationKind::Required => KindModel::Required,
            ViolationKind::Calculation { stored, computed } => KindModel::Calculation {
                stored: stored@,
                computed: computed@,
            },
            ViolationKind::Failed(why) => KindModel::Failed(why@),
        }
    }
}

impl View for Violation {
    type V = ViolationModel;

    open spec fn view(&self) -> ViolationModel {
        ViolationModel {
            path: self.path@,
            node_path: self.node_path@,
            kind: self.kind@,
            message: inside(self.message),
        }
    }
}

impl Clone for ViolationKind {
    fn clone(&self) -> (r: ViolationKind)
        ensures
            r@ == self@,
    {
        match self {
            ViolationKind::Constraint => ViolationKind::Constraint,
            ViolationKind::Required => ViolationKind::Required,
            ViolationKind::Calculation { stored, computed } => ViolationKind::Calculation {
                stored: stored.clone(),
                computed: computed.clone(),
            },
            ViolationKind::Failed(why) => ViolationKind::Failed(why.clone()),
        }
    }
}

impl Clone for Violation {
    fn clone(&self) -> (r: Violation)
        ensures
            r@ == self@,
    {
        Violation {
            path: self.path.clone(),
            node_path: self.node_path.clone(),
            kind: self.kind.clone(),
            message: copy_text(&self.message),
        }
    }
}

/// A violation in words.
pub open spec fn description(v: ViolationModel) -> Seq<char> {
    match v.kind {
        KindModel::Constraint => match v.message {
            Some(m) => v.node_path + ": "@ + m,
            None => v.node_path + ": the answer does not satisfy the form's constraint"@,
        },
        KindModel::Required => match v.message {
            Some(m) => v.node_path + ": "@ + m,
            None => v.node_path + ": required, and unanswered"@,
        },
        KindModel::Calculation { stored, computed } => v.node_path + ": holds "@ + quoted(stored)
            + ", but the form calculates "@ + quoted(computed),
        KindModel::Failed(why) => v.node_path + ": rule could not be evaluated — "@ + why,
    }
}

impl Violation {
    pub fn describe(&self) -> (r: String)
        ensures
            r@ == description(self@),
    {
        let place = self.node_path.as_str();
        match &self.kind {
            ViolationKind::Constraint => match &self.message {
                Some(m) => cat3(place, ": ", m.as_str()),
                None => cat2(place, ": the answer does not satisfy the form's constraint"),
            },
            ViolationKind::Required => match &self.message {
                Some(m) => cat3(place, ": ", m.as_str()),
                None => cat2(place, ": required, and unanswered"),
            },
            ViolationKind::Calculation { stored, computed } => cat5(
                place,
                ": holds ",
                quote(stored.as_str()).as_str(),
                ", but the form calculates ",
                quote(computed.as_str()).as_str(),
            ),
            ViolationKind::Failed(why) => cat3(
                place,
                ": rule could not be evaluated — ",
                why.as_str(),
            ),
        }
    }
}

pub open spec fn binding_models(v: Seq<Binding>) -> Seq<BindingModel> {
    Seq::new(v.len(), |i: int| v[i]@)
}

pub open spec fn violation_models(v: Seq<Violation>) -> Seq<ViolationModel> {
    Seq::new(v.len(), |i: int| v[i]@)
}

} // verus!
