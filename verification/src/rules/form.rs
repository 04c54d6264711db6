//! A form, ready to check submissions against.

use crate::eval::{Environment, Surroundings};
use crate::parser::ast::{Expr, ExprModel};
use crate::parser::grammar::{parse, parse_model};
use crate::parser::lexer::after;
use crate::rules::binding::{
    bare_binding, binding_models, inside, violation_models, Binding, BindingModel, Violation,
    ViolationModel,
};
use crate::rules::checking::{all_findings, all_leftovers, Rules, RulesModel};
use crate::rules::order::ordering;
use crate::table::{in_key_order, lookup, with_entry, Table};
use crate::text::{begins_with, blank, cat2, cat6, is_blank, quote, quoted, same, seen, starts};
use crate::tree::xml::form_tree;
use crate::tree::{bare_node, Instance, NodeId, NodeKind, Tree};
use vstd::prelude::*;

verus! {

// ---------------------------------------------------------------------------
// Rules out of an XForm
// ---------------------------------------------------------------------------

/// The value of the first attribute of a name, from the one at `i` on.
pub open spec fn attribute_from(t: Tree, s: Seq<NodeId>, name: Seq<char>, i: int) -> Option<
    Seq<char>,
>
    decreases s.len() - i,
{
    if i < 0 || i >= s.len() {
        None
    } else if t.name(s[i]) == name {
        Some(t.value(s[i]))
    } else {
        attribute_from(t, s, name, i + 1)
    }
}

pub open spec fn attribute_of(t: Tree, n: NodeId, name: Seq<char>) -> Option<Seq<char>> {
    attribute_from(t, t.attributes(n), name, 0)
}

/// The value of an attribute that says something.
pub open spec fn said(t: Tree, n: NodeId, name: Seq<char>) -> Option<Seq<char>> {
    match attribute_of(t, n, name) {
        Some(v) => if is_blank(v) {
            None
        } else {
            Some(v)
        },
        None => None,
    }
}

/// The expression that an attribute of a bind writes.
pub open spec fn bound_expr(t: Tree, n: NodeId, path: Seq<char>, what: Seq<char>) -> Result<
    Option<ExprModel>,
    Seq<char>,
> {
    match said(t, n, what) {
        None => Ok(None),
        Some(text) => match parse_model(text) {
            Ok(e) => Ok(Some(e)),
            Err(e) => Err(
                what + " of "@ + path + ": "@ + e + (" — in expression "@ + quoted(text)),
            ),
        },
    }
}

/// The path that a bind is about.
pub open spec fn bound_path(t: Tree, n: NodeId) -> Option<Seq<char>> {
    match said(t, n, "nodeset"@) {
        Some(path) => Some(path),
        None => said(t, n, "ref"@),
    }
}

/// The binding that a bind element writes. `required` is an expression, not
/// a flag: forms write `${consent} = 'yes'` as often as `true()`.
pub open spec fn bind_model(t: Tree, n: NodeId) -> Result<BindingModel, Seq<char>> {
    match bound_path(t, n) {
        None => Err("a <bind> has no nodeset"@),
        Some(path) => match bound_expr(t, n, path, "relevant"@) {
            Err(e) => Err(e),
            Ok(relevant) => match bound_expr(t, n, path, "calculate"@) {
                Err(e) => Err(e),
                Ok(calculate) => match bound_expr(t, n, path, "constraint"@) {
                    Err(e) => Err(e),
                    Ok(constraint) => match bound_expr(t, n, path, "readonly"@) {
                        Err(e) => Err(e),
                        Ok(readonly) => match bound_expr(t, n, path, "required"@) {
                            Err(e) => Err(e),
                            Ok(required) => Ok(
                                BindingModel {
                                    relevant,
                                    calculate,
                                    constraint,
                                    readonly,
                                    required,
                                    constraint_message: said(t, n, "constraintMsg"@),
                                    required_message: said(t, n, "requiredMsg"@),
                                    ..bare_binding(path)
                                },
                            ),
                        },
                    },
                },
            },
        },
    }
}

/// The bindings of nodes, from the one at `i` on.
pub open spec fn binds_from(t: Tree, s: Seq<NodeId>, i: int) -> Result<
    Seq<BindingModel>,
    Seq<char>,
>
    decreases s.len() - i,
{
    if i < 0 || i >= s.len() {
        Ok(Seq::empty())
    } else if t.name(s[i]) != "bind"@ {
        binds_from(t, s, i + 1)
    } else {
        match bind_model(t, s[i]) {
            Err(e) => Err(e),
            Ok(b) => after(seq![b], binds_from(t, s, i + 1)),
        }
    }
}

/// A node and its descendants in document order.
pub open spec fn document(t: Tree, root: NodeId) -> Seq<NodeId> {
    seq![root] + t.descendants(root)
}

/// The rules that an XForm carries.
pub open spec fn xform_rules(xml: Seq<char>) -> Result<RulesModel, Seq<char>> {
    match form_tree(xml) {
        Err(e) => Err("XForm XML: "@ + e),
        Ok(t) => match t.root {
            None => Err("the XForm has no root element"@),
            Some(root) => match binds_from(t, document(t, root), 0) {
                Err(e) => Err(e),
                Ok(bindings) => if bindings.len() == 0 {
                    Err("the XForm declares no binds, so it carries no rules"@)
                } else {
                    match ordering(bindings) {
                        Err(e) => Err(e),
                        Ok(order) => Ok(RulesModel { bindings, order }),
                    }
                },
            },
        },
    }
}

pub(crate) fn attribute(instance: &Instance, node: NodeId, name: &str) -> (r: Option<String>)
    requires
        instance@.wf(),
        instance@.has(node),
    ensures
        inside(r) == attribute_of(instance@, node, name@),
{
    let ids = instance.attributes(node);
    let n = ids.len();
    for i in 0..n
        invariant
            n == ids@.len(),
            ids@ == instance@.attributes(node),
            instance@.all_in(ids@),
            attribute_of(instance@, node, name@) == attribute_from(
                instance@,
                ids@,
                name@,
                i as int,
            ),
    {
        assert(instance@.has(ids@[i as int]));
        let a = instance.node(ids[i]);
        if same(a.name.as_str(), name) {
            return Some(a.value.clone());
        }
    }
    None
}

pub(crate) fn said_by(instance: &Instance, node: NodeId, name: &str) -> (r: Option<String>)
    requires
        instance@.wf(),
        instance@.has(node),
    ensures
        inside(r) == said(instance@, node, name@),
{
    match attribute(instance, node, name) {
        Some(v) => {
            if blank(v.as_str()) {
                None
            } else {
                Some(v)
            }
        },
        None => None,
    }
}

fn expression(instance: &Instance, node: NodeId, path: &str, what: &str) -> (r: Result<
    Option<Expr>,
    String,
>)
    requires
        instance@.wf(),
        instance@.has(node),
    ensures
        match bound_expr(instance@, node, path@, what@) {
            Ok(e) => r matches Ok(x) && inside(x) == e,
            Err(e) => r matches Err(m) && m@ == e,
        },
{
    match said_by(instance, node, what) {
        None => Ok(None),
        Some(text) => match parse(text.as_str()) {
            Ok(e) => Ok(Some(e)),
            Err(e) => {
                let tail = cat2(" — in expression ", quote(text.as_str()).as_str());
                Err(cat6(what, " of ", path, ": ", e.as_str(), tail.as_str()))
            },
        },
    }
}

fn read_bind(instance: &Instance, node: NodeId) -> (r: Result<Binding, String>)
    requires
        instance@.wf(),
        instance@.has(node),
    ensures
        seen(r) == bind_model(instance@, node),
{
    let path = match said_by(instance, node, "nodeset") {
        Some(path) => path,
        None => match said_by(instance, node, "ref") {
            Some(path) => path,
            None => {
                return Err("a <bind> has no nodeset".to_string());
            },
        },
    };
    let relevant = match expression(instance, node, path.as_str(), "relevant") {
        Err(e) => {
            return Err(e);
        },
        Ok(e) => e,
    };
    let calculate = match expression(instance, node, path.as_str(), "calculate") {
        Err(e) => {
            return Err(e);
        },
        Ok(e) => e,
    };
    let constraint = match expression(instance, node, path.as_str(), "constraint") {
        Err(e) => {
            return Err(e);
        },
        Ok(e) => e,
    };
    let readonly = match expression(instance, node, path.as_str(), "readonly") {
        Err(e) => {
            return Err(e);
        },
        Ok(e) => e,
    };
    let required = match expression(instance, node, path.as_str(), "required") {
        Err(e) => {
            return Err(e);
        },
        Ok(e) => e,
    };
    Ok(
        Binding {
            relevant,
            calculate,
            constraint,
            required,
            readonly,
            constraint_message: said_by(instance, node, "constraintMsg"),
            required_message: said_by(instance, node, "requiredMsg"),
            path,
            row: 0,
        },
    )
}

pub(crate) fn all_nodes(instance: &Instance, root: NodeId) -> (r: Vec<NodeId>)
    requires
        instance@.wf(),
        instance@.has(root),
    ensures
        r@ == document(instance@, root),
        instance@.all_in(r@),
{
    let mut nodes: Vec<NodeId> = Vec::new();
    nodes.push(root);
    let mut below = instance.descendants(root);
    nodes.append(&mut below);
    assert(nodes@ == document(instance@, root));
    nodes
}

/// Read the rules out of an XForm's `<bind>` elements.
///
/// The XForm rather than the spreadsheet, deliberately. Its binds already
/// carry absolute XPath (`${age}` has become `/data/age`), so nothing here
/// does that expansion again and drifts from the tool that performed it.
/// More to the point, the XForm is the artifact the device was handed: what
/// this checks is what the client evaluated, not a parallel reading of the
/// author's intent.
pub fn from_xform(xml: &str) -> (r: Result<Rules, String>)
    ensures
        seen(r) == xform_rules(xml@),
        r matches Ok(rules) ==> rules@.wf(),
{
    let document = match Instance::from_form(xml) {
        Err(e) => {
            return Err(cat2("XForm XML: ", e.as_str()));
        },
        Ok(document) => document,
    };
    let root = match document.root() {
        None => {
            return Err("the XForm has no root element".to_string());
        },
        Some(root) => root,
    };
    let ghost t = document@;
    let nodes = all_nodes(&document, root);
    let ghost all = binds_from(t, nodes@, 0);
    let mut bindings: Vec<Binding> = Vec::new();
    let n = nodes.len();
    proof {
        assert(binding_models(bindings@) == Seq::<BindingModel>::empty());
        if let Ok(s) = all {
            assert(Seq::<BindingModel>::empty() + s == s);
        }
    }
    for i in 0..n
        invariant
            t == document@,
            t.wf(),
            form_tree(xml@) == Ok::<Tree, Seq<char>>(t),
            t.root == Some(root),
            nodes@ == self::document(t, root),
            n == nodes@.len(),
            t.all_in(nodes@),
            all == binds_from(t, nodes@, 0),
            all == after(binding_models(bindings@), binds_from(t, nodes@, i as int)),
    {
        assert(t.has(nodes@[i as int]));
        if same(document.node(nodes[i]).name.as_str(), "bind") {
            match read_bind(&document, nodes[i]) {
                Err(e) => {
                    return Err(e);
                },
                Ok(b) => {
                    let ghost was = bindings@;
                    let ghost model = b@;
                    bindings.push(b);
                    proof {
                        assert(binding_models(bindings@) == binding_models(was).push(model));
                        if let Ok(s) = binds_from(t, nodes@, i + 1) {
                            assert(binding_models(was) + (seq![model] + s) == binding_models(
                                bindings@,
                            ) + s);
                        }
                    }
                },
            }
        }
    }
    assert(binding_models(bindings@) + Seq::<BindingModel>::empty() == binding_models(bindings@));
    if bindings.len() == 0 {
        return Err("the XForm declares no binds, so it carries no rules".to_string());
    }
    Rules::new(bindings)
}

// ---------------------------------------------------------------------------
// Lookup tables
// ---------------------------------------------------------------------------

impl Tree {
    /// A node and what is below it, as a document of its own.
    pub open spec fn subtree(self, n: NodeId) -> Tree {
        (Tree { root: Some(NodeId(0)), ..Tree::empty().adopted(self, n) }).reindexed()
    }
}

/// The lookup tables among some nodes, from the one at `i` on.
pub open spec fn tables_from(
    t: Tree,
    s: Seq<NodeId>,
    i: int,
    found: Seq<(Seq<char>, Tree)>,
) -> Seq<(Seq<char>, Tree)>
    decreases s.len() - i,
{
    if i < 0 || i >= s.len() {
        found
    } else {
        tables_from(
            t,
            s,
            i + 1,
            if t.name(s[i]) == "instance"@ && attribute_of(t, s[i], "id"@) is Some {
                with_entry(found, attribute_of(t, s[i], "id"@)->0, t.subtree(s[i]))
            } else {
                found
            },
        )
    }
}

/// The lookup tables declared inside an XForm.
pub open spec fn xform_tables(xml: Seq<char>) -> Result<Seq<(Seq<char>, Tree)>, Seq<char>> {
    match form_tree(xml) {
        Err(e) => Err("XForm XML: "@ + e),
        Ok(t) => match t.root {
            None => Ok(Seq::empty()),
            Some(root) => Ok(tables_from(t, document(t, root), 0, Seq::empty())),
        },
    }
}

/// Whether every table can be walked.
pub open spec fn tables_wf(s: Seq<(Seq<char>, Tree)>) -> bool {
    forall|i: int| 0 <= i < s.len() ==> (#[trigger] s[i]).1.wf()
}

pub(crate) proof fn lemma_tables_with(s: Seq<(Seq<char>, Tree)>, key: Seq<char>, t: Tree)
    requires
        tables_wf(s),
        t.wf(),
    ensures
        tables_wf(with_entry(s, key, t)),
    decreases s.len(),
{
    let w = with_entry(s, key, t);
    if s.len() > 0 {
        let rest = s.skip(1);
        assert(tables_wf(rest)) by {
            assert forall|i: int| 0 <= i < rest.len() implies (#[trigger] rest[i]).1.wf() by {
                assert(rest[i] == s[i + 1]);
            }
        }
        lemma_tables_with(rest, key, t);
        assert forall|i: int| 0 <= i < w.len() implies (#[trigger] w[i]).1.wf() by {
            if s[0].0 == key {
                if i > 0 {
                    assert(w[i] == s[i]);
                }
            } else if crate::table::stands_before(key, s[0].0, 0) {
                if i > 0 {
                    assert(w[i] == s[i - 1]);
                }
            } else if i == 0 {
                assert(w[i] == s[0]);
            } else {
                assert(w[i] == with_entry(rest, key, t)[i - 1]);
            }
        }
    }
}

pub(crate) proof fn lemma_lookup_wf(s: Seq<(Seq<char>, Tree)>, key: Seq<char>)
    requires
        tables_wf(s),
    ensures
        lookup(s, key) matches Some(t) ==> t.wf(),
    decreases s.len(),
{
    if s.len() > 0 {
        assert(s[0].1.wf());
        let rest = s.skip(1);
        assert forall|i: int| 0 <= i < rest.len() implies (#[trigger] rest[i]).1.wf() by {
            assert(rest[i] == s[i + 1]);
        }
        lemma_lookup_wf(rest, key);
    }
}

pub(crate) fn subtree(source: &Instance, from: NodeId) -> (r: Instance)
    requires
        source@.wf(),
        source@.has(from),
    ensures
        r@ == source@.subtree(from),
        r@.wf(),
        r@.upright(),
        r@.root == Some(NodeId(0)),
{
    let mut target = Instance::new();
    let root = target.adopt(source, from);
    let ghost copy = target@;
    target.set_root(root);
    proof {
        copy.lemma_same_nodes_upright(target@);
    }
    target
}

/// The lookup tables declared inside an XForm.
///
/// A secondary instance is an `<instance>` carrying an `id`; the primary one
/// has no id of its own, its child element does. Reading them out means
/// `instance('lotes')` resolves without anyone loading anything.
pub fn secondary_instances(xform: &str) -> (r: Result<Table<Instance>, String>)
    ensures
        seen(r) == xform_tables(xform@),
        r matches Ok(tables) ==> tables_wf(tables@) && in_key_order(tables@),
{
    let document = match Instance::from_form(xform) {
        Err(e) => {
            return Err(cat2("XForm XML: ", e.as_str()));
        },
        Ok(document) => document,
    };
    let mut out: Table<Instance> = Table::new();
    let root = match document.root() {
        None => {
            return Ok(out);
        },
        Some(root) => root,
    };
    let ghost t = document@;
    let nodes = all_nodes(&document, root);
    let ghost all = tables_from(t, nodes@, 0, Seq::empty());
    let n = nodes.len();
    for i in 0..n
        invariant
            t == document@,
            t.wf(),
            n == nodes@.len(),
            t.all_in(nodes@),
            all == tables_from(t, nodes@, 0, Seq::empty()),
            all == tables_from(t, nodes@, i as int, out@),
            tables_wf(out@),
            in_key_order(out@),
    {
        assert(t.has(nodes@[i as int]));
        if same(document.node(nodes[i]).name.as_str(), "instance") {
            if let Some(id) = attribute(&document, nodes[i], "id") {
                // The wrapper comes along: `instance('x')/root/item` steps
                // from the <instance> element into the <root> it contains.
                let table = subtree(&document, nodes[i]);
                proof {
                    lemma_tables_with(out@, id@, table@);
                }
                out.insert(id.as_str(), table);
            }
        }
    }
    Ok(out)
}

// ---------------------------------------------------------------------------
// Forms
// ---------------------------------------------------------------------------

/// The element a submission is wrapped in while it is checked. Named after
/// the XForms element it stands for, and stripped from reported paths.
pub const MODEL_ROOT: &'static str = "model";

pub const MODEL_ROOT_PATH: &'static str = "/model";

/// An XForm's rules together with the lookup tables it reads.
///
/// Cascading selects are written as `instance('lotes')/root/item[...]`, and
/// those tables live inside the XForm itself. Without them every such
/// expression fails, which on a real questionnaire means most of them.
#[derive(Debug)]
pub struct Form {
    pub rules: Rules,
    secondary: Table<Instance>,
}

/// What a form holds.
pub struct FormModel {
    pub rules: RulesModel,
    pub tables: Seq<(Seq<char>, Tree)>,
}

impl View for Form {
    type V = FormModel;

    closed spec fn view(&self) -> FormModel {
        FormModel { rules: self.rules@, tables: self.secondary@ }
    }
}

impl FormModel {
    pub open spec fn wf(self) -> bool {
        &&& self.rules.wf()
        &&& tables_wf(self.tables)
        &&& in_key_order(self.tables)
    }
}

/// What `today()` and `now()` answer.
///
/// Passed in rather than read from the system clock: a constraint like
/// `. <= today()` has to be judged against the day the interview happened,
/// not the day someone re-ran the check. Otherwise a submission that was
/// valid on collection starts failing later, and the report changes without
/// the data changing.
#[derive(Debug)]
pub struct Clock {
    pub today: String,
    pub now: String,
}

impl Clone for Clock {
    fn clone(&self) -> (r: Clock)
        ensures
            r == *self,
    {
        Clock { today: self.today.clone(), now: self.now.clone() }
    }
}

/// What a form answers to its own expressions.
pub open spec fn form_surroundings(
    tables: Seq<(Seq<char>, Tree)>,
    today: Seq<char>,
    now: Seq<char>,
) -> Surroundings {
    Surroundings {
        today,
        now,
        secondary: |id: Seq<char>| lookup(tables, id),
        label: |v: Seq<char>, q: Seq<char>| None,
    }
}

pub(crate) struct FormEnvironment<'a> {
    secondary: &'a Table<Instance>,
    clock: Clock,
}

impl<'a> FormEnvironment<'a> {
    #[verifier::type_invariant]
    spec fn walkable(&self) -> bool {
        tables_wf(self.secondary@)
    }

    pub(crate) closed spec fn tables(&self) -> Seq<(Seq<char>, Tree)> {
        self.secondary@
    }

    pub(crate) closed spec fn clock(&self) -> Clock {
        self.clock
    }
}

impl<'a> Environment for FormEnvironment<'a> {
    closed spec fn model(&self) -> Surroundings {
        form_surroundings(self.secondary@, self.clock.today@, self.clock.now@)
    }

    fn secondary_instance(&self, id: &str) -> (r: Option<&Instance>) {
        proof {
            use_type_invariant(self);
            lemma_lookup_wf(self.secondary@, id@);
        }
        self.secondary.get(id)
    }

    fn choice_label(&self, value: &str, question_path: &str) -> (r: Option<String>) {
        None
    }

    fn today(&self) -> (r: String) {
        self.clock.today.clone()
    }

    fn now(&self) -> (r: String) {
        self.clock.now.clone()
    }
}

/// The tree with a copy of another document's root as the last child of its
/// own first node.
pub open spec fn with_document(t: Tree, source: Tree) -> Tree {
    match source.root {
        None => t,
        Some(root) => t.adopted(source, root).appended(
            NodeId(0),
            NodeId(t.nodes.len() as usize),
        ),
    }
}

/// The tree with lookup tables after what it has, from the one at `i` on.
pub open spec fn with_tables(t: Tree, tables: Seq<(Seq<char>, Tree)>, i: int) -> Tree
    decreases tables.len() - i,
{
    if i < 0 || i >= tables.len() {
        t
    } else {
        with_tables(with_document(t, tables[i].1), tables, i + 1)
    }
}

/// A document with one element.
pub open spec fn lone_element(name: Seq<char>) -> Tree {
    (Tree {
        root: Some(NodeId(0)),
        ..Tree::empty().grown(bare_node(NodeKind::Element, name, ""@))
    }).reindexed()
}

/// The submission and the form's lookup tables in one document, which is how
/// an XForms model is actually shaped, and what a predicate needs in order
/// to filter a table by an answer.
pub open spec fn model_of(form: FormModel, submission: Tree) -> Tree {
    with_tables(
        with_document(lone_element(MODEL_ROOT@), submission),
        form.tables,
        0,
    ).reindexed()
}

/// A path as the form writes it, without the wrapper that a check builds
/// around the submission.
pub open spec fn unwrapped_path(path: Seq<char>) -> Seq<char> {
    if begins_with(path, MODEL_ROOT_PATH@) {
        path.skip(MODEL_ROOT_PATH@.len() as int)
    } else {
        path
    }
}

pub open spec fn unwrapped(s: Seq<ViolationModel>) -> Seq<ViolationModel> {
    Seq::new(
        s.len(),
        |i: int| ViolationModel { node_path: unwrapped_path(s[i].node_path), ..s[i] },
    )
}

/// What a form finds of a submission.
pub open spec fn form_findings(
    form: FormModel,
    submission: Tree,
    today: Seq<char>,
    now: Seq<char>,
) -> Seq<ViolationModel> {
    unwrapped(
        all_findings(
            form.rules.bindings,
            form.rules.order,
            model_of(form, submission),
            form_surroundings(form.tables, today, now),
        ),
    )
}

/// What a form says of the values left in questions that are not asked.
pub open spec fn form_leftovers(
    form: FormModel,
    submission: Tree,
    today: Seq<char>,
    now: Seq<char>,
) -> Seq<ViolationModel> {
    unwrapped(
        all_leftovers(
            form.rules.bindings,
            form.rules.order,
            model_of(form, submission),
            form_surroundings(form.tables, today, now),
        ),
    )
}

pub(crate) fn unwrap_path(path: &str) -> (r: String)
    ensures
        r@ == unwrapped_path(path@),
{
    if starts(path, MODEL_ROOT_PATH) {
        let s = crate::text::chars_of(path);
        let p = crate::text::chars_of(MODEL_ROOT_PATH);
        let r = crate::text::slice(&s, p.len(), s.len());
        assert(r@ == path@.skip(p@.len() as int));
        r
    } else {
        path.to_string()
    }
}

pub(crate) fn unwrap_violations(found: Vec<Violation>) -> (r: Vec<Violation>)
    ensures
        violation_models(r@) == unwrapped(violation_models(found@)),
{
    let ghost all = unwrapped(violation_models(found@));
    let mut out: Vec<Violation> = Vec::new();
    let n = found.len();
    for i in 0..n
        invariant
            n == found@.len(),
            all == unwrapped(violation_models(found@)),
            violation_models(out@) == all.take(i as int),
    {
        let ghost was = out@;
        let mut v = found[i].clone();
        let path = unwrap_path(v.node_path.as_str());
        v.node_path = path;
        let ghost model = v@;
        out.push(v);
        proof {
            assert(violation_models(out@) == violation_models(was).push(model));
            assert(all.take(i + 1) == all.take(i as int).push(all[i as int]));
            assert(model == all[i as int]);
        }
    }
    assert(all.take(n as int) == all);
    out
}

impl Form {
    pub fn parse(xform: &str) -> (r: Result<Form, String>)
        ensures
            match xform_rules(xform@) {
                Err(e) => r matches Err(m) && m@ == e,
                Ok(rules) => match xform_tables(xform@) {
                    Err(e) => r matches Err(m) && m@ == e,
                    Ok(tables) => r matches Ok(form) && form@ == (FormModel { rules, tables })
                        && form@.wf(),
                },
            },
    {
        let rules = match from_xform(xform) {
            Err(e) => {
                return Err(e);
            },
            Ok(rules) => rules,
        };
        match secondary_instances(xform) {
            Err(e) => Err(e),
            Ok(secondary) => Ok(Form { rules, secondary }),
        }
    }

    pub(crate) fn own_rules(&self) -> (r: &Rules)
        ensures
            r@ == self@.rules,
    {
        &self.rules
    }

    /// The submission and the form's lookup tables in one document.
    pub(crate) fn model_of(&self, submission: &Instance) -> (r: Instance)
        requires
            self@.wf(),
            submission@.wf(),
        ensures
            r@ == model_of(self@, submission@),
            r@.wf(),
    {
        let ghost tables = self.secondary@;
        let mut model = Instance::new();
        let root = model.create_element(MODEL_ROOT, "");
        model.set_root(root);
        hang(&mut model, submission);
        let ghost all = with_tables(model@, tables, 0);
        let n = self.secondary.len();
        for i in 0..n
            invariant
                tables == self.secondary@,
                tables_wf(tables),
                n == tables.len(),
                model@.wf(),
                model@.nodes.len() > 0,
                all == with_tables(model@, tables, i as int),
        {
            assert(tables[i as int].1.wf());
            hang(&mut model, self.secondary.value(i));
        }
        model.reindex();
        model
    }

    /// What the form's expressions are evaluated in.
    pub(crate) fn environment(&self, clock: Clock) -> (r: FormEnvironment<'_>)
        requires
            self@.wf(),
        ensures
            r.model() == form_surroundings(self@.tables, clock.today@, clock.now@),
    {
        FormEnvironment { secondary: &self.secondary, clock }
    }

    /// Check a submission. `clock` supplies `today()` and `now()`.
    pub fn check(&self, submission: &Instance, clock: Clock) -> (r: Vec<Violation>)
        requires
            self@.wf(),
            submission@.wf(),
        ensures
            violation_models(r@) == form_findings(self@, submission@, clock.today@, clock.now@),
    {
        let model = self.model_of(submission);
        let env = self.environment(clock);
        unwrap_violations(self.rules.check(&model, &env))
    }

    /// What the rules say of the values left in questions that are not
    /// asked.
    pub fn leftovers(&self, submission: &Instance, clock: Clock) -> (r: Vec<Violation>)
        requires
            self@.wf(),
            submission@.wf(),
        ensures
            violation_models(r@) == form_leftovers(self@, submission@, clock.today@, clock.now@),
    {
        let model = self.model_of(submission);
        let env = self.environment(clock);
        unwrap_violations(self.rules.leftovers(&model, &env))
    }

    pub fn secondary_instance_ids(&self) -> (r: Vec<&str>)
        ensures
            r@.len() == self@.tables.len(),
            forall|i: int| 0 <= i < r@.len() ==> (#[trigger] r@[i])@ == self@.tables[i].0,
    {
        self.secondary.keys()
    }
}

/// Copy the root of a document in as the last child of the first node.
fn hang(model: &mut Instance, source: &Instance)
    requires
        old(model)@.wf(),
        old(model)@.nodes.len() > 0,
        source@.wf(),
    ensures
        final(model)@ == with_document(old(model)@, source@),
        final(model)@.wf(),
        final(model)@.nodes.len() > 0,
{
    if let Some(root) = source.root() {
        let ghost before = model@;
        let copied = model.adopt(source, root);
        proof {
            model@.lemma_split_can_hold(before.nodes.len() as int, NodeId(0), copied);
        }
        model.append_child(NodeId(0), copied);
    }
}

} // verus!
