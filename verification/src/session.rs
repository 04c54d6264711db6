//! A form being filled in.
//!
//! [`crate::rules::Rules`] answers questions about a finished submission: is
//! this valid, what does it calculate to, which nodes were relevant. That is
//! the right shape for a server checking what arrived, and the wrong shape
//! for a screen someone is typing into, where the same questions have to be
//! answered again after every keystroke and the answers have to be applied
//! rather than reported.
//!
//! A [`Session`] holds the instance, applies calculations in dependency
//! order, and reports what changed. It is deliberately the same engine: a
//! form that behaves one way while being filled and another way when it
//! arrives is worse than one that is wrong in a single consistent way,
//! because only the first kind produces data nobody can explain.
//!
//! It does not decide what a question looks like, what order questions are
//! asked in, or what a language is called. Those are the form *body*'s
//! business and a renderer's; this module knows the model: paths, values,
//! and the expressions binding them.

use crate::eval::{bare_surroundings, Environment, Fixed, Surroundings};
use crate::rules::binding::{
    description, violation_models, KindModel, Violation, ViolationKind, ViolationModel,
};
use crate::rules::form::{
    form_findings, form_leftovers, lemma_lookup_wf, tables_wf, xform_rules, xform_tables, Clock,
    Form, FormModel,
};
use crate::rules::live::{
    form_calculations, form_relevance, form_relevance_failures, put_pair, text_pairs,
};
use crate::session::answers::{
    answer_at, answered, create_at, find_node, holder, holder_of, rows, rows_of,
};
use crate::session::keeping::{can_be_put_down, is_unmarked, lemma_lifted};
use crate::session::round_trip::is_writable;
use crate::session::templates::{blank_instance, blank_of, lift_templates, lifted};
use crate::session::writing::{document_text, write_document};
use crate::table::{in_key_order, lookup, with_entry, Table};
use crate::text::{cat2, cat3, cat6, count_text, decimal, same, texts};
use crate::tree::xml::xml_tree;
use crate::tree::{Instance, NodeId, Tree};
use vstd::prelude::*;

pub mod answers;
pub mod growing;
pub mod keeping;
pub mod laws;
pub mod lifting;
pub mod reporting;
pub mod round_trip;
pub mod rows;
pub mod settled;
pub mod templates;
pub mod writing;

verus! {

/// A form and the answers so far.
#[derive(Debug)]
pub struct Session {
    form: Form,
    instance: Instance,
    clock: Clock,
    /// One blank row per repeat, by the repeat's path.
    templates: Table<Instance>,
}

/// What a session holds.
#[verifier::ext_equal]
pub struct SessionModel {
    pub form: FormModel,
    pub instance: Tree,
    pub today: Seq<char>,
    pub now: Seq<char>,
    pub templates: Seq<(Seq<char>, Tree)>,
}

impl View for Session {
    type V = SessionModel;

    closed spec fn view(&self) -> SessionModel {
        SessionModel {
            form: self.form@,
            instance: self.instance@,
            today: self.clock.today@,
            now: self.clock.now@,
            templates: self.templates@,
        }
    }
}

impl SessionModel {
    pub open spec fn wf(self) -> bool {
        &&& self.form.wf()
        &&& self.instance.wf()
        &&& self.instance.upright()
        &&& tables_wf(self.templates)
        &&& in_key_order(self.templates)
    }

    /// What the paths of questions are read in.
    pub open spec fn env(self) -> Surroundings {
        bare_surroundings(self.today, self.now)
    }
}

/// What the engine says about the form as it currently stands.
#[derive(Debug, Clone, PartialEq)]
pub struct Outcome {
    /// Paths whose value the form computed, and what it computed.
    ///
    /// Only paths that *changed* appear: a renderer redrawing every
    /// calculated field on every keystroke would fight the cursor.
    pub calculated: Table<String>,
    /// Paths that are relevant, and paths that are not. A path missing from
    /// this table has no relevance expression and is always asked.
    pub relevant: Table<bool>,
    /// Paths that must be answered and are not, given current relevance.
    pub missing: Vec<String>,
    /// Answers the form's own rules reject, with the message to show.
    pub invalid: Vec<(String, String)>,
    /// Expressions that could not be evaluated at all. These are form bugs,
    /// not answer problems, and they are kept separate for that reason: an
    /// enumerator can fix an answer and can do nothing about a broken
    /// `relevant`.
    pub failed: Vec<(String, String)>,
    /// How many rows each repeat has, by the repeat's path.
    pub repeats: Table<usize>,
}

/// What an outcome says.
#[verifier::ext_equal]
pub struct OutcomeModel {
    pub calculated: Seq<(Seq<char>, Seq<char>)>,
    pub relevant: Seq<(Seq<char>, bool)>,
    pub missing: Seq<Seq<char>>,
    pub invalid: Seq<(Seq<char>, Seq<char>)>,
    pub failed: Seq<(Seq<char>, Seq<char>)>,
    pub repeats: Seq<(Seq<char>, usize)>,
}

impl View for Outcome {
    type V = OutcomeModel;

    open spec fn view(&self) -> OutcomeModel {
        OutcomeModel {
            calculated: self.calculated@,
            relevant: self.relevant@,
            missing: texts(self.missing@),
            invalid: text_pairs(self.invalid@),
            failed: text_pairs(self.failed@),
            repeats: self.repeats@,
        }
    }
}

impl Default for Outcome {
    fn default() -> (r: Outcome)
        ensures
            r@ == (OutcomeModel {
                calculated: Seq::empty(),
                relevant: Seq::empty(),
                missing: Seq::empty(),
                invalid: Seq::empty(),
                failed: Seq::empty(),
                repeats: Seq::empty(),
            }),
    {
        let r = Outcome {
            calculated: Table::new(),
            relevant: Table::new(),
            missing: Vec::new(),
            invalid: Vec::new(),
            failed: Vec::new(),
            repeats: Table::new(),
        };
        assert(r@ =~= OutcomeModel {
            calculated: Seq::empty(),
            relevant: Seq::empty(),
            missing: Seq::empty(),
            invalid: Seq::empty(),
            failed: Seq::empty(),
            repeats: Seq::empty(),
        });
        r
    }
}

// ---------------------------------------------------------------------------
// What a session does
// ---------------------------------------------------------------------------

/// Answers with calculated values written into them, and those that changed.
pub struct Applied {
    pub tree: Tree,
    pub calculated: Seq<(Seq<char>, Seq<char>)>,
}

/// Calculated values written into the answers, from the one at `k` on.
pub open spec fn applied_from(
    a: Applied,
    computed: Seq<(Seq<char>, Seq<char>)>,
    k: int,
    env: Surroundings,
) -> Applied
    decreases computed.len() - k,
{
    if k < 0 || k >= computed.len() {
        a
    } else {
        let (path, value) = computed[k];
        applied_from(
            if answer_at(a.tree, path, env) == value {
                a
            } else {
                Applied {
                    tree: match answered(a.tree, path, value, env) {
                        Ok(t) => t,
                        Err(_) => a.tree,
                    },
                    calculated: with_entry(a.calculated, path, value),
                }
            },
            computed,
            k + 1,
            env,
        )
    }
}

/// The relevance expressions that failed, in words, by the paths of their
/// nodes.
pub open spec fn described(s: Seq<ViolationModel>) -> Seq<(Seq<char>, Seq<char>)> {
    Seq::new(s.len(), |i: int| (s[i].node_path, description(s[i])))
}

pub const NOT_ALLOWED: &'static str = "this answer is not allowed";

impl OutcomeModel {
    /// An outcome with one finding more. An unanswered question nobody was
    /// asked is the normal state of most of a form; saying so on every
    /// keystroke is noise. Calculations have just run, so a disagreement
    /// with one is no finding here.
    pub open spec fn noting(self, v: ViolationModel) -> OutcomeModel {
        if lookup(self.relevant, v.node_path) == Some(false) {
            self
        } else {
            match v.kind {
                KindModel::Required => OutcomeModel {
                    missing: self.missing.push(v.node_path),
                    ..self
                },
                KindModel::Constraint => OutcomeModel {
                    invalid: self.invalid.push(
                        (
                            v.node_path,
                            match v.message {
                                Some(m) => m,
                                None => NOT_ALLOWED@,
                            },
                        ),
                    ),
                    ..self
                },
                KindModel::Failed(why) => OutcomeModel {
                    failed: self.failed.push((v.node_path, why)),
                    ..self
                },
                KindModel::Calculation { .. } => self,
            }
        }
    }

    /// An outcome with findings, from the one at `k` on.
    pub open spec fn noting_all(self, s: Seq<ViolationModel>, k: int) -> OutcomeModel
        decreases s.len() - k,
    {
        if k < 0 || k >= s.len() {
            self
        } else {
            self.noting(s[k]).noting_all(s, k + 1)
        }
    }
}

/// How many rows the repeats have, from the one at `i` on.
pub open spec fn counted_from(
    t: Tree,
    templates: Seq<(Seq<char>, Tree)>,
    i: int,
    env: Surroundings,
    found: Seq<(Seq<char>, usize)>,
) -> Seq<(Seq<char>, usize)>
    decreases templates.len() - i,
{
    if i < 0 || i >= templates.len() {
        found
    } else {
        counted_from(
            t,
            templates,
            i + 1,
            env,
            with_entry(found, templates[i].0, rows_of(t, templates[i].0, env).len() as usize),
        )
    }
}

impl SessionModel {
    /// The answer at a path.
    pub open spec fn get(self, path: Seq<char>) -> Seq<char> {
        answer_at(self.instance, path, self.env())
    }

    /// The answers with another at a path.
    pub open spec fn set(self, path: Seq<char>, value: Seq<char>) -> Result<Tree, Seq<char>> {
        answered(self.instance, path, value, self.env())
    }

    /// The answers with what the form calculates of them.
    pub open spec fn applied(self) -> Applied {
        applied_from(
            Applied { tree: self.instance, calculated: Seq::empty() },
            form_calculations(self.form, self.instance, self.today, self.now).computed,
            0,
            self.env(),
        )
    }

    /// How many rows each repeat has.
    pub open spec fn repeat_counts(self) -> Seq<(Seq<char>, usize)> {
        counted_from(self.instance, self.templates, 0, self.env(), Seq::empty())
    }

    /// What the engine says once calculations have been applied: relevance
    /// and findings are those of the answers as they then are.
    pub open spec fn outcome(self) -> OutcomeModel {
        let after = SessionModel { instance: self.applied().tree, ..self };
        let found = (OutcomeModel {
            calculated: self.applied().calculated,
            relevant: form_relevance(self.form, after.instance, self.today, self.now),
            missing: Seq::empty(),
            invalid: Seq::empty(),
            failed: form_calculations(self.form, self.instance, self.today, self.now).failed
                + described(
                form_relevance_failures(self.form, after.instance, self.today, self.now),
            ),
            repeats: Seq::empty(),
        }).noting_all(form_findings(self.form, after.instance, self.today, self.now), 0);
        OutcomeModel { repeats: after.repeat_counts(), ..found }
    }

    /// The answers with one row more in a repeat. The row is a copy of the
    /// form's own template, placed after the last existing row rather than
    /// at the end of its parent: appended blindly it would land after `meta`
    /// and after every question that follows the repeat, putting both the
    /// submission and every positional path out of order.
    pub open spec fn with_row(self, path: Seq<char>) -> Result<Tree, Seq<char>> {
        let t = self.instance;
        match lookup(self.templates, path) {
            None => Err("'"@ + path + "' is not a repeat in this form"@),
            Some(template) => match template.root {
                None => Err("the template for '"@ + path + "' is empty"@),
                Some(root) => {
                    let rows = rows_of(t, path, self.env());
                    let grown = t.adopted(template, root);
                    let row = NodeId(t.nodes.len() as usize);
                    if rows.len() > 0 {
                        Ok(grown.inserted_after(rows.last(), row).reindexed())
                    } else {
                        match holder(t, path, self.env()) {
                            None => Err("'"@ + path + "' has nowhere to hang"@),
                            Some(parent) => Ok(grown.appended(parent, row).reindexed()),
                        }
                    }
                },
            },
        }
    }

    /// The answers with one row less in a repeat, rows counted from 1 as
    /// XPath counts.
    pub open spec fn without_row(self, path: Seq<char>, position: usize) -> Result<
        Tree,
        Seq<char>,
    > {
        let rows = rows_of(self.instance, path, self.env());
        if position == 0 || position > rows.len() {
            Err(
                "'"@ + path + "' has "@ + decimal(rows.len()) + " row(s); there is no row "@
                    + decimal(position as nat),
            )
        } else {
            Ok(self.instance.detached(rows[position - 1]).reindexed())
        }
    }
}

/// A session as it starts.
pub open spec fn started(xform: Seq<char>, today: Seq<char>, now: Seq<char>) -> Result<
    SessionModel,
    Seq<char>,
> {
    match (xform_rules(xform), xform_tables(xform)) {
        (Err(e), _) => Err(e),
        (_, Err(e)) => Err(e),
        (Ok(rules), Ok(tables)) => match blank_of(xform) {
            Err(e) => Err(e),
            Ok(blank) => Ok(
                SessionModel {
                    form: FormModel { rules, tables },
                    instance: lifted(blank).tree,
                    today,
                    now,
                    templates: lifted(blank).found,
                },
            ),
        },
    }
}

/// A session as it goes on from saved answers. A saved instance has no
/// templates, they were lifted before it was ever shown, so they come from
/// the form, which is where they belong anyway.
pub open spec fn resumed(
    xform: Seq<char>,
    saved: Seq<char>,
    today: Seq<char>,
    now: Seq<char>,
) -> Result<SessionModel, Seq<char>> {
    match (xform_rules(xform), xform_tables(xform)) {
        (Err(e), _) => Err(e),
        (_, Err(e)) => Err(e),
        (Ok(rules), Ok(tables)) => match xml_tree(saved) {
            Err(e) => Err("saved instance: "@ + e),
            Ok(t) => match blank_of(xform) {
                Err(e) => Err(e),
                Ok(blank) => Ok(
                    SessionModel {
                        form: FormModel { rules, tables },
                        instance: lifted(t).tree,
                        today,
                        now,
                        templates: lifted(blank).found,
                    },
                ),
            },
        },
    }
}

impl Session {
    /// Start filling in a form, from the XForm the server serves.
    pub fn new(xform: &str, clock: Clock) -> (r: Result<Session, String>)
        ensures
            match started(xform@, clock.today@, clock.now@) {
                Ok(s) => r matches Ok(session) && session@ == s && s.wf(),
                Err(e) => r matches Err(m) && m@ == e,
            },
            r matches Ok(session) ==> {
                &&& session@.instance.hangs_together(NodeId(0))
                &&& is_unmarked(session@.instance, NodeId(0))
                &&& is_writable(blank_of(xform@)->Ok_0, NodeId(0)) ==> can_be_put_down(
                    session@.instance,
                    NodeId(0),
                )
            },
    {
        let form = match Form::parse(xform) {
            Err(e) => {
                return Err(e);
            },
            Ok(form) => form,
        };
        let mut instance = match blank_instance(xform) {
            Err(e) => {
                return Err(e);
            },
            Ok(instance) => instance,
        };
        proof {
            lemma_lifted(instance@, NodeId(0));
        }
        let templates = lift_templates(&mut instance);
        Ok(Session { form, instance, clock, templates })
    }

    /// Resume a partly-filled form.
    pub fn resume(xform: &str, instance_xml: &str, clock: Clock) -> (r: Result<Session, String>)
        ensures
            match resumed(xform@, instance_xml@, clock.today@, clock.now@) {
                Ok(s) => r matches Ok(session) && session@ == s && s.wf(),
                Err(e) => r matches Err(m) && m@ == e,
            },
    {
        let form = match Form::parse(xform) {
            Err(e) => {
                return Err(e);
            },
            Ok(form) => form,
        };
        let mut instance = match Instance::from_xml(instance_xml) {
            Err(e) => {
                return Err(cat2("saved instance: ", e.as_str()));
            },
            Ok(instance) => instance,
        };
        let mut blank = match blank_instance(xform) {
            Err(e) => {
                return Err(e);
            },
            Ok(blank) => blank,
        };
        let templates = lift_templates(&mut blank);
        let _ = lift_templates(&mut instance);
        Ok(Session { form, instance, clock, templates })
    }

    fn env(&self) -> (r: Fixed)
        ensures
            r.model() == self@.env(),
    {
        Fixed { today: self.clock.today.clone(), now: self.clock.now.clone() }
    }

    /// Answer a question.
    ///
    /// The path is created if the blank instance did not have it: a form
    /// whose template omits a node still has to be able to hold its answer.
    pub fn set(&mut self, path: &str, value: &str) -> (r: Result<(), String>)
        requires
            old(self)@.wf(),
        ensures
            match old(self)@.set(path@, value@) {
                Ok(t) => r is Ok && final(self)@ == (SessionModel { instance: t, ..old(self)@ }),
                Err(e) => r matches Err(m) && m@ == e && final(self)@ == old(self)@,
            },
            final(self)@.wf(),
    {
        let env = self.env();
        match find_node(&self.instance, path, &env) {
            Some(node) => {
                let ghost before = self.instance@;
                proof {
                    before.lemma_with_value_wf(node, value@);
                    before.lemma_with_value_upright(node, value@);
                }
                self.instance.node_mut(node).value = value.to_string();
                assert(self.instance@ == before.with_value(node, value@));
                Ok(())
            },
            None => create_at(&mut self.instance, path, value),
        }
    }

    /// The current answer, or the empty string for an unanswered question.
    pub fn get(&self, path: &str) -> (r: String)
        requires
            self@.wf(),
        ensures
            r@ == self@.get(path@),
    {
        let env = self.env();
        match find_node(&self.instance, path, &env) {
            Some(node) => self.instance.string_value(node),
            None => "".to_string(),
        }
    }

    /// Write calculated values into the answers.
    fn apply(&mut self, computed: &Vec<(String, String)>) -> (r: Table<String>)
        requires
            old(self)@.wf(),
        ensures
            final(self)@ == (SessionModel {
                instance: applied_from(
                    Applied { tree: old(self)@.instance, calculated: Seq::empty() },
                    text_pairs(computed@),
                    0,
                    old(self)@.env(),
                ).tree,
                ..old(self)@
            }),
            final(self)@.wf(),
            r@ == applied_from(
                Applied { tree: old(self)@.instance, calculated: Seq::empty() },
                text_pairs(computed@),
                0,
                old(self)@.env(),
            ).calculated,
    {
        let ghost start = self@;
        let ghost list = text_pairs(computed@);
        let ghost goal = applied_from(
            Applied { tree: start.instance, calculated: Seq::empty() },
            list,
            0,
            start.env(),
        );
        let mut calculated: Table<String> = Table::new();
        let n = computed.len();
        for k in 0..n
            invariant
                n == computed@.len(),
                list == text_pairs(computed@),
                self@.wf(),
                self@ == (SessionModel { instance: self@.instance, ..start }),
                goal == applied_from(
                    Applied { tree: self@.instance, calculated: calculated@ },
                    list,
                    k as int,
                    start.env(),
                ),
        {
            let path = computed[k].0.as_str();
            let value = computed[k].1.as_str();
            assert(list[k as int] == (path@, value@));
            if !same(self.get(path).as_str(), value) {
                let _ = self.set(path, value);
                calculated.insert(path, value.to_string());
            }
        }
        calculated
    }

    /// Run the form's logic and apply what it derives.
    ///
    /// Calculations run first, in dependency order, and their results are
    /// written into the instance. That is the difference between this and
    /// checking a finished submission, which only reports the disagreement.
    pub fn recompute(&mut self) -> (r: Outcome)
        requires
            old(self)@.wf(),
        ensures
            final(self)@ == (SessionModel { instance: old(self)@.applied().tree, ..old(self)@ }),
            final(self)@.wf(),
            r@ == old(self)@.outcome(),
    {
        let ghost start = self@;
        let (computed, mut failed) = self.form.calculations(&self.instance, &self.clock);
        let calculated = self.apply(&computed);
        let (relevant, problems) = self.form.relevance(&self.instance, &self.clock);
        let ghost first = text_pairs(failed@);
        let ghost p = violation_models(problems@);
        let n = problems.len();
        assert(first + described(p).take(0) == first);
        for i in 0..n
            invariant
                n == problems@.len(),
                p == violation_models(problems@),
                text_pairs(failed@) == first + described(p).take(i as int),
        {
            assert(p[i as int] == problems@[i as int]@);
            put_pair(&mut failed, problems[i].node_path.clone(), problems[i].describe());
            assert(described(p).take(i + 1) == described(p).take(i as int).push(
                described(p)[i as int],
            ));
        }
        assert(described(p).take(n as int) == described(p));
        let mut outcome = Outcome {
            calculated,
            relevant,
            missing: Vec::new(),
            invalid: Vec::new(),
            failed,
            repeats: Table::new(),
        };
        assert(texts(outcome.missing@) == Seq::<Seq<char>>::empty());
        assert(text_pairs(outcome.invalid@) == Seq::<(Seq<char>, Seq<char>)>::empty());
        let found = self.form.check(&self.instance, self.clock.clone());
        let ghost f = violation_models(found@);
        let ghost goal = outcome@.noting_all(f, 0);
        let m = found.len();
        for k in 0..m
            invariant
                m == found@.len(),
                f == violation_models(found@),
                goal == outcome@.noting_all(f, k as int),
        {
            let v = &found[k];
            assert(f[k as int] == v@);
            note(&mut outcome, v);
        }
        outcome.repeats = self.repeat_counts();
        outcome
    }

    /// How many rows each repeat currently has.
    ///
    /// A repeat with no rows is a real state, the form asked for a list and
    /// the list is empty, and it is different from a repeat whose single row
    /// is blank.
    pub fn repeat_counts(&self) -> (r: Table<usize>)
        requires
            self@.wf(),
        ensures
            r@ == self@.repeat_counts(),
    {
        let ghost t = self@.templates;
        let mut counts: Table<usize> = Table::new();
        let ghost goal = self@.repeat_counts();
        let n = self.templates.len();
        for i in 0..n
            invariant
                self@.wf(),
                t == self@.templates,
                t == self.templates@,
                n == t.len(),
                goal == counted_from(self@.instance, t, i as int, self@.env(), counts@),
        {
            let path = self.templates.key(i);
            counts.insert(path, self.rows_of(path).len());
        }
        counts
    }

    /// Add a row to a repeat. Returns how many rows there are now.
    pub fn add_row(&mut self, path: &str) -> (r: Result<usize, String>)
        requires
            old(self)@.wf(),
        ensures
            match old(self)@.with_row(path@) {
                Ok(t) => final(self)@ == (SessionModel { instance: t, ..old(self)@ }) && (
                r matches Ok(n) && n == rows_of(t, path@, old(self)@.env()).len()),
                Err(e) => r matches Err(m) && m@ == e && final(self)@ == old(self)@,
            },
            final(self)@.wf(),
    {
        let ghost start = self@;
        let ghost t = self.instance@;
        proof {
            lemma_lookup_wf(start.templates, path@);
        }
        let rows = self.rows_of(path);
        let holder = self.holder_of(path);
        let template = match self.templates.get(path) {
            None => {
                return Err(cat3("'", path, "' is not a repeat in this form"));
            },
            Some(template) => template,
        };
        let root = match template.root() {
            None => {
                return Err(cat3("the template for '", path, "' is empty"));
            },
            Some(root) => root,
        };
        if rows.len() > 0 {
            let last = rows[rows.len() - 1];
            assert(t.has(rows@[rows@.len() - 1]));
            let row = self.instance.adopt(template, root);
            proof {
                let grown = self.instance@;
                t.lemma_parent(last);
                assert(grown.nodes[last.0 as int] == t.nodes[last.0 as int]);
                if let Some(p) = t.parent(last) {
                    grown.lemma_split_can_hold(t.nodes.len() as int, p, row);
                }
                grown.lemma_split_unlinked(t.nodes.len() as int);
                grown.lemma_inserted_upright(last, row);
            }
            self.instance.insert_after(last, row);
        } else {
            let parent = match holder {
                None => {
                    return Err(cat3("'", path, "' has nowhere to hang"));
                },
                Some(parent) => parent,
            };
            let row = self.instance.adopt(template, root);
            proof {
                let grown = self.instance@;
                grown.lemma_split_can_hold(t.nodes.len() as int, parent, row);
                grown.lemma_split_unlinked(t.nodes.len() as int);
                grown.lemma_appended_upright(parent, row);
            }
            self.instance.append_child(parent, row);
        }
        let ghost hung = self.instance@;
        self.instance.reindex();
        proof {
            hung.lemma_same_nodes_upright(self.instance@);
        }
        Ok(self.rows_of(path).len())
    }

    /// Remove one row, counted from 1 as XPath counts. Returns how many rows
    /// there are now.
    pub fn remove_row(&mut self, path: &str, position: usize) -> (r: Result<usize, String>)
        requires
            old(self)@.wf(),
        ensures
            match old(self)@.without_row(path@, position) {
                Ok(t) => final(self)@ == (SessionModel { instance: t, ..old(self)@ }) && (
                r matches Ok(n) && n == rows_of(t, path@, old(self)@.env()).len()),
                Err(e) => r matches Err(m) && m@ == e && final(self)@ == old(self)@,
            },
            final(self)@.wf(),
    {
        let rows = self.rows_of(path);
        if position == 0 || position > rows.len() {
            return Err(
                cat6(
                    "'",
                    path,
                    "' has ",
                    count_text(rows.len()).as_str(),
                    " row(s); there is no row ",
                    count_text(position).as_str(),
                ),
            );
        }
        assert(self.instance@.has(rows@[position - 1]));
        self.instance.detach(rows[position - 1]);
        let ghost left = self.instance@;
        self.instance.reindex();
        proof {
            left.lemma_same_nodes_upright(self.instance@);
        }
        Ok(self.rows_of(path).len())
    }

    /// The nodes that are the rows of a repeat, in document order.
    fn rows_of(&self, path: &str) -> (r: Vec<NodeId>)
        requires
            self@.wf(),
        ensures
            r@ == rows_of(self@.instance, path@, self@.env()),
            self.instance@.all_in(r@),
    {
        let env = self.env();
        rows(&self.instance, path, &env)
    }

    fn holder_of(&self, path: &str) -> (r: Option<NodeId>)
        requires
            self@.wf(),
        ensures
            r == holder(self@.instance, path@, self@.env()),
            r matches Some(n) ==> self.instance@.has(n),
    {
        let env = self.env();
        holder_of(&self.instance, path, &env)
    }

    /// The instance as it would be submitted.
    pub fn instance_xml(&self) -> (r: String)
        requires
            self@.wf(),
        ensures
            r@ == document_text(self@.instance),
    {
        write_document(&self.instance)
    }

    /// Every violation, for the moment someone presses send. Unlike
    /// [`Self::recompute`], this reports irrelevant nodes too: a value
    /// sitting in a question nobody was asked is worth knowing about before
    /// it is sent, not after. What is found of such values comes last.
    pub fn check_all(&self) -> (r: Vec<Violation>)
        requires
            self@.wf(),
        ensures
            violation_models(r@) == form_findings(
                self@.form,
                self@.instance,
                self@.today,
                self@.now,
            ) + form_leftovers(self@.form, self@.instance, self@.today, self@.now),
    {
        let mut all = self.form.check(&self.instance, self.clock.clone());
        let mut left = self.form.leftovers(&self.instance, self.clock.clone());
        let ghost a = all@;
        let ghost b = left@;
        all.append(&mut left);
        assert(all@ == a + b);
        assert(violation_models(all@) == violation_models(a) + violation_models(b));
        all
    }
}

/// One finding more in an outcome.
fn note(outcome: &mut Outcome, v: &Violation)
    ensures
        final(outcome)@ == old(outcome)@.noting(v@),
{
    let path = v.node_path.as_str();
    let hidden = match outcome.relevant.get(path) {
        Some(shown) => !*shown,
        None => false,
    };
    if !hidden {
        match &v.kind {
            ViolationKind::Required => {
                let ghost was = outcome.missing@;
                outcome.missing.push(path.to_string());
                assert(texts(outcome.missing@) == texts(was).push(path@));
            },
            ViolationKind::Constraint => {
                let message = match &v.message {
                    Some(m) => m.clone(),
                    None => NOT_ALLOWED.to_string(),
                };
                put_pair(&mut outcome.invalid, path.to_string(), message);
            },
            ViolationKind::Failed(why) => {
                put_pair(&mut outcome.failed, path.to_string(), why.clone());
            },
            ViolationKind::Calculation { .. } => {},
        }
    }
}

} // verus!
