//! Will this form mean the same thing on a tablet and in a browser?
//!
//! It often will not, and nothing in either tool says so. The two engines
//! the ecosystem runs on (JavaRosa inside ODK Collect and KoboCollect,
//! Enketo inside web forms) implement different languages. Neither is a
//! superset of the other, and the gaps do not announce themselves: an
//! expression Collect cannot evaluate usually yields nothing rather than an
//! error, so the form fills in, the interview finishes, and a column comes
//! back empty.

use crate::parser::grammar::{parse, parse_model};
use crate::portability::constructs::{
    finding_models, inspect, inspected, Finding, FindingModel,
};
use crate::portability::shape::{check_paths, shape_of, Shape, ShapeModel};
use crate::rules::binding::{copy_text, inside};
use crate::rules::form::{all_nodes, attribute, attribute_of, bound_path, document, said, said_by};
use crate::text::{cat2, cat3, cat4, cat6, same, texts, trim, trimmed};
use crate::tree::xml::form_tree;
use crate::tree::{Instance, NodeId, Tree};
use vstd::prelude::*;

pub mod constructs;
pub mod describing;
pub mod laws;
pub mod paths;
pub mod shape;

verus! {

/// Which engine stumbles.
#[derive(Debug, Clone, Copy, PartialEq, Eq, Structural)]
pub enum Breaks {
    /// JavaRosa: the tablets. The expensive one: data is being collected
    /// while it goes wrong.
    Collect,
    /// Enketo: web forms.
    WebForms,
    /// Both run it, and mean different things by it. The worst kind,
    /// because nothing fails.
    Differently,
    /// Both run it and both do the same nothing. Not a portability problem
    /// at all but a form problem, which travels perfectly and is wrong
    /// everywhere it goes. Kept in the same report because it is found the
    /// same way and matters more.
    Everywhere,
}

/// The engines, in words.
pub open spec fn engines(b: Breaks) -> Seq<char> {
    match b {
        Breaks::Collect => "Collect / KoboCollect"@,
        Breaks::WebForms => "Enketo web forms"@,
        Breaks::Differently => "both, differently"@,
        Breaks::Everywhere => "both, identically and silently"@,
    }
}

impl Breaks {
    pub fn describe(&self) -> (r: &'static str)
        ensures
            r@ == engines(*self),
    {
        match self {
            Breaks::Collect => "Collect / KoboCollect",
            Breaks::WebForms => "Enketo web forms",
            Breaks::Differently => "both, differently",
            Breaks::Everywhere => "both, identically and silently",
        }
    }
}

#[derive(Debug)]
pub struct Issue {
    /// The bind this expression belongs to.
    pub path: String,
    /// Which rule: relevant, calculate, constraint, required, readonly.
    pub rule: String,
    pub expression: String,
    /// The construct at fault, as a form author would name it.
    pub construct: String,
    pub breaks: Breaks,
    pub effect: String,
    pub suggestion: Option<String>,
}

/// What an issue says.
#[verifier::ext_equal]
pub struct IssueModel {
    pub path: Seq<char>,
    pub rule: Seq<char>,
    pub expression: Seq<char>,
    pub finding: FindingModel,
}

impl View for Issue {
    type V = IssueModel;

    open spec fn view(&self) -> IssueModel {
        IssueModel {
            path: self.path@,
            rule: self.rule@,
            expression: self.expression@,
            finding: FindingModel {
                construct: self.construct@,
                breaks: self.breaks,
                effect: self.effect@,
                suggestion: inside(self.suggestion),
            },
        }
    }
}

impl Clone for Issue {
    fn clone(&self) -> (r: Issue)
        ensures
            r@ == self@,
    {
        Issue {
            path: self.path.clone(),
            rule: self.rule.clone(),
            expression: self.expression.clone(),
            construct: self.construct.clone(),
            breaks: self.breaks,
            effect: self.effect.clone(),
            suggestion: copy_text(&self.suggestion),
        }
    }
}

/// The clause of an issue that says where it goes wrong. It reads
/// differently for a fault that is not about engines at all.
pub open spec fn engine_clause(b: Breaks) -> Seq<char> {
    match b {
        Breaks::Everywhere => "identically on both engines"@,
        Breaks::Differently => "and the two engines differ"@,
        _ => "on "@ + engines(b),
    }
}

/// The sentence of an issue that says what to write.
pub open spec fn advice(suggestion: Option<Seq<char>>) -> Seq<char> {
    match suggestion {
        Some(s) => " Write "@ + s + " instead."@,
        None => ""@,
    }
}

/// An issue in words.
pub open spec fn issue_text(i: IssueModel) -> Seq<char> {
    (i.path + " ("@ + i.rule + ")"@) + ": "@ + i.finding.construct + " — "@ + i.finding.effect + (
    ", "@ + engine_clause(i.finding.breaks) + "."@ + advice(i.finding.suggestion))
}

impl Issue {
    pub fn describe(&self) -> (r: String)
        ensures
            r@ == issue_text(self@),
    {
        let place = cat4(self.path.as_str(), " (", self.rule.as_str(), ")");
        let fix = match &self.suggestion {
            Some(s) => cat3(" Write ", s.as_str(), " instead."),
            None => "".to_string(),
        };
        let engines = match self.breaks {
            Breaks::Everywhere => "identically on both engines".to_string(),
            Breaks::Differently => "and the two engines differ".to_string(),
            other => cat2("on ", other.describe()),
        };
        let tail = cat4(", ", engines.as_str(), ".", fix.as_str());
        cat6(
            place.as_str(),
            ": ",
            self.construct.as_str(),
            " — ",
            self.effect.as_str(),
            tail.as_str(),
        )
    }
}

pub open spec fn issue_models(v: Seq<Issue>) -> Seq<IssueModel> {
    Seq::new(v.len(), |i: int| v[i]@)
}

/// The repeats that a form's body declares, among some nodes from the one
/// at `i` on.
pub open spec fn repeats_from(t: Tree, s: Seq<NodeId>, i: int) -> Seq<Seq<char>>
    decreases s.len() - i,
{
    if i < 0 || i >= s.len() {
        Seq::empty()
    } else {
        (match attribute_of(t, s[i], "nodeset"@) {
            Some(v) if t.name(s[i]) == "repeat"@ => seq![trim(v)],
            _ => Seq::empty(),
        }) + repeats_from(t, s, i + 1)
    }
}

/// Findings, as those of one rule of a bind.
pub open spec fn issues_of(
    found: Seq<FindingModel>,
    path: Seq<char>,
    rule: Seq<char>,
    expression: Seq<char>,
) -> Seq<IssueModel> {
    Seq::new(
        found.len(),
        |i: int|
            IssueModel { path: trim(path), rule, expression: trim(expression), finding: found[i] },
    )
}

/// The form around a rule: what repeats in it, and what its instance holds.
pub struct Surrounding {
    pub repeats: Seq<Seq<char>>,
    pub shape: ShapeModel,
}

/// What will not travel in one rule of a bind. An expression that does not
/// parse is a different problem, reported where the rules are read.
pub open spec fn rule_issues(
    t: Tree,
    n: NodeId,
    path: Seq<char>,
    rule: Seq<char>,
    form: Surrounding,
) -> Seq<IssueModel> {
    match said(t, n, rule) {
        None => Seq::empty(),
        Some(expression) => match parse_model(expression) {
            Err(_) => Seq::empty(),
            Ok(e) => issues_of(
                inspected(e, form.repeats) + form.shape.path_findings(e, path),
                path,
                rule,
                expression,
            ),
        },
    }
}

/// What will not travel in a bind.
pub open spec fn bind_issues(t: Tree, n: NodeId, form: Surrounding) -> Seq<IssueModel> {
    match bound_path(t, n) {
        None => Seq::empty(),
        Some(path) => rule_issues(t, n, path, "relevant"@, form) + rule_issues(
            t,
            n,
            path,
            "calculate"@,
            form,
        ) + rule_issues(t, n, path, "constraint"@, form) + rule_issues(
            t,
            n,
            path,
            "required"@,
            form,
        ) + rule_issues(t, n, path, "readonly"@, form),
    }
}

/// What will not travel in the binds among some nodes, from the one at `i`
/// on.
pub open spec fn issues_from(t: Tree, s: Seq<NodeId>, i: int, form: Surrounding) -> Seq<IssueModel>
    decreases s.len() - i,
{
    if i < 0 || i >= s.len() {
        Seq::empty()
    } else {
        (if t.name(s[i]) == "bind"@ {
            bind_issues(t, s[i], form)
        } else {
            Seq::empty()
        }) + issues_from(t, s, i + 1, form)
    }
}

/// What will not travel in a form.
pub open spec fn form_issues(xform: Seq<char>) -> Result<Seq<IssueModel>, Seq<char>> {
    match form_tree(xform) {
        Err(e) => Err("XForm XML: "@ + e),
        Ok(t) => match t.root {
            None => Err("the XForm has no root element"@),
            Some(root) => {
                let s = document(t, root);
                Ok(
                    issues_from(
                        t,
                        s,
                        0,
                        Surrounding { repeats: repeats_from(t, s, 0), shape: shape_of(t) },
                    ),
                )
            },
        },
    }
}

fn repeats(document: &Instance, nodes: &Vec<NodeId>) -> (r: Vec<String>)
    requires
        document@.wf(),
        document@.all_in(nodes@),
    ensures
        texts(r@) == repeats_from(document@, nodes@, 0),
{
    let mut out: Vec<String> = Vec::new();
    let ghost all = repeats_from(document@, nodes@, 0);
    assert(texts(out@) + all == all);
    let n = nodes.len();
    for i in 0..n
        invariant
            n == nodes@.len(),
            document@.wf(),
            document@.all_in(nodes@),
            all == texts(out@) + repeats_from(document@, nodes@, i as int),
    {
        assert(document@.has(nodes@[i as int]));
        let ghost was = out@;
        if same(document.node(nodes[i]).name.as_str(), "repeat") {
            if let Some(nodeset) = attribute(document, nodes[i], "nodeset") {
                let path = trimmed(nodeset.as_str());
                let ghost text = path@;
                out.push(path);
                assert(texts(out@) == texts(was).push(text));
            }
        }
        assert(texts(was) + repeats_from(document@, nodes@, i as int) == texts(out@) + repeats_from(
            document@,
            nodes@,
            i + 1,
        ));
    }
    assert(texts(out@) + Seq::<Seq<char>>::empty() == texts(out@));
    out
}

fn check_rule(
    document: &Instance,
    node: NodeId,
    path: &str,
    rule: &str,
    repeats: &Vec<String>,
    shape: &Shape,
    issues: &mut Vec<Issue>,
)
    requires
        document@.wf(),
        document@.has(node),
    ensures
        issue_models(final(issues)@) == issue_models(old(issues)@) + rule_issues(
            document@,
            node,
            path@,
            rule@,
            Surrounding { repeats: texts(repeats@), shape: shape@ },
        ),
{
    let ghost before = issue_models(issues@);
    assert(before + Seq::<IssueModel>::empty() == before);
    let expression = match said_by(document, node, rule) {
        None => {
            return;
        },
        Some(expression) => expression,
    };
    let parsed = match parse(expression.as_str()) {
        Err(_) => {
            return;
        },
        Ok(parsed) => parsed,
    };
    let mut found: Vec<Finding> = Vec::new();
    assert(finding_models(found@) == Seq::<FindingModel>::empty());
    inspect(&parsed, repeats, &mut found);
    check_paths(&parsed, path, shape, &mut found);
    let ghost model = inspected(parsed@, texts(repeats@)) + shape@.path_findings(parsed@, path@);
    assert(finding_models(found@) == model);
    let ghost all = issues_of(model, path@, rule@, expression@);
    let n = found.len();
    for i in 0..n
        invariant
            n == found@.len(),
            model == finding_models(found@),
            all == issues_of(model, path@, rule@, expression@),
            issue_models(issues@) == before + all.take(i as int),
    {
        let ghost was = issues@;
        let f = &found[i];
        assert(model[i as int] == f@);
        let issue = Issue {
            path: trimmed(path),
            rule: rule.to_string(),
            expression: trimmed(expression.as_str()),
            construct: f.construct.clone(),
            breaks: f.breaks,
            effect: f.effect.clone(),
            suggestion: copy_text(&f.suggestion),
        };
        let ghost said = issue@;
        issues.push(issue);
        assert(said == all[i as int]);
        assert(issue_models(issues@) == issue_models(was).push(said));
        assert(all.take(i + 1) == all.take(i as int).push(all[i as int]));
    }
    assert(all.take(n as int) == all);
}

fn check_bind(
    document: &Instance,
    node: NodeId,
    repeats: &Vec<String>,
    shape: &Shape,
    issues: &mut Vec<Issue>,
)
    requires
        document@.wf(),
        document@.has(node),
    ensures
        issue_models(final(issues)@) == issue_models(old(issues)@) + bind_issues(
            document@,
            node,
            Surrounding { repeats: texts(repeats@), shape: shape@ },
        ),
{
    let ghost before = issue_models(issues@);
    assert(before + Seq::<IssueModel>::empty() == before);
    let path = match said_by(document, node, "nodeset") {
        Some(path) => path,
        None => match said_by(document, node, "ref") {
            Some(path) => path,
            None => {
                return;
            },
        },
    };
    check_rule(document, node, path.as_str(), "relevant", repeats, shape, issues);
    check_rule(document, node, path.as_str(), "calculate", repeats, shape, issues);
    check_rule(document, node, path.as_str(), "constraint", repeats, shape, issues);
    check_rule(document, node, path.as_str(), "required", repeats, shape, issues);
    check_rule(document, node, path.as_str(), "readonly", repeats, shape, issues);
    assert(issue_models(issues@) == before + bind_issues(
        document@,
        node,
        Surrounding { repeats: texts(repeats@), shape: shape@ },
    ));
}

/// Read every expression in a form and report what will not travel.
pub fn check_form(xform: &str) -> (r: Result<Vec<Issue>, String>)
    ensures
        match form_issues(xform@) {
            Ok(issues) => r matches Ok(v) && issue_models(v@) == issues,
            Err(e) => r matches Err(m) && m@ == e,
        },
{
    let document = match Instance::from_form(xform) {
        Err(e) => {
            return Err(cat2("XForm XML: ", e.as_str()));
        },
        Ok(document) => document,
    };
    let root = match document.root() {
        None => {
            return Err("the XForm has no root element".to_string());
        },
        Some(root) => root,
    };
    let ghost t = document@;
    let nodes = all_nodes(&document, root);
    // Paths that can hold more than one node: comparing one against a value
    // is what JavaRosa refuses.
    let repeats = repeats(&document, &nodes);
    let shape = Shape::of(&document);
    let ghost form = Surrounding { repeats: texts(repeats@), shape: shape@ };
    let ghost all = issues_from(t, nodes@, 0, form);
    let mut issues: Vec<Issue> = Vec::new();
    assert(issue_models(issues@) + all == all);
    let n = nodes.len();
    for i in 0..n
        invariant
            t == document@,
            t.wf(),
            n == nodes@.len(),
            t.all_in(nodes@),
            form == (Surrounding { repeats: texts(repeats@), shape: shape@ }),
            all == issue_models(issues@) + issues_from(t, nodes@, i as int, form),
    {
        assert(t.has(nodes@[i as int]));
        let ghost was = issue_models(issues@);
        if same(document.node(nodes[i]).name.as_str(), "bind") {
            check_bind(&document, nodes[i], &repeats, &shape, &mut issues);
        }
        assert(was + issues_from(t, nodes@, i as int, form) == issue_models(issues@) + issues_from(
            t,
            nodes@,
            i + 1,
            form,
        ));
    }
    assert(issue_models(issues@) + Seq::<IssueModel>::empty() == issue_models(issues@));
    Ok(issues)
}

} // verus!
