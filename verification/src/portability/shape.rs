//! Paths that name nothing.
//!
//! A form's instance is fixed when the form is written, so a path in a rule
//! either names a node in it or names nothing at all, and naming nothing is
//! silent. XPath answers an empty node-set, which `sum()` reads as 0,
//! `count()` as 0, a comparison as false, and a `relevant` as "do not ask".
//! So a calculation quietly produces zero, a question is hidden for the
//! whole of fieldwork, and a constraint never rejects anything. Both engines
//! agree perfectly, and both are useless.

use crate::parser::ast::{exprs_model, steps_model, Expr, ExprModel, Step, StepModel};
use crate::parser::grammar::{expr_models, lemma_models, lemma_step_models, step_models};
use crate::portability::constructs::{finding_models, report, Finding, FindingModel};
use crate::portability::Breaks;
use crate::rules::binding::inside;
use crate::rules::form::{all_nodes, attribute, attribute_of, document};
use crate::rules::paths::{named_path, path_text};
use crate::text::{
    after_last, cat2, cat3, cat4, chars_of, end_of_run, ends, finishes_with, past_last, same,
    slice_chars, span, split, split_on, string_of, texts, trim_end_of, trimmed_end_of, Class,
};
use crate::tree::{Instance, NodeId, Tree};
use vstd::prelude::*;

verus! {

/// What the form's instance actually contains.
pub struct Shape {
    /// Every element path in the primary instance, without positions.
    paths: Vec<String>,
    /// The ids of every `<instance>` the form declares.
    tables: Vec<String>,
    /// The primary instance's root element name, for a clearer message when
    /// the root itself is what was misspelled.
    root: Option<String>,
}

#[verifier::ext_equal]
pub struct ShapeModel {
    pub paths: Seq<Seq<char>>,
    pub tables: Seq<Seq<char>>,
    pub root: Option<Seq<char>>,
}

impl View for Shape {
    type V = ShapeModel;

    closed spec fn view(&self) -> ShapeModel {
        ShapeModel {
            paths: texts(self.paths@),
            tables: texts(self.tables@),
            root: inside(self.root),
        }
    }
}

/// The paths of an element and of those below it, the path above being
/// `prefix`.
pub open spec fn element_paths(t: Tree, n: NodeId, prefix: Seq<char>) -> Seq<Seq<char>>
    decreases t.height(n), t.children(n).len() + 1,
    when t.wf() && t.has(n)
{
    let here = prefix + "/"@ + t.name(n);
    seq![here] + element_paths_below(t, n, 0, here)
}

/// The paths below an element, from its child `i` on.
pub open spec fn element_paths_below(t: Tree, n: NodeId, i: int, here: Seq<char>) -> Seq<Seq<char>>
    decreases t.height(n), t.children(n).len() - i,
    when t.wf() && t.has(n) && 0 <= i
{
    if i >= t.children(n).len() {
        Seq::empty()
    } else {
        element_paths(t, t.children(n)[i], here) + element_paths_below(t, n, i + 1, here)
    }
}

/// The ids of the instances among some nodes, from the one at `i` on.
pub open spec fn instance_ids(t: Tree, s: Seq<NodeId>, i: int) -> Seq<Seq<char>>
    decreases s.len() - i,
{
    if i < 0 || i >= s.len() {
        Seq::empty()
    } else {
        (match attribute_of(t, s[i], "id"@) {
            Some(id) if t.name(s[i]) == "instance"@ => seq![id],
            _ => Seq::empty(),
        }) + instance_ids(t, s, i + 1)
    }
}

/// The first instance without an id among some nodes, from the one at `i`
/// on. It is the primary one.
pub open spec fn primary_from(t: Tree, s: Seq<NodeId>, i: int) -> Option<NodeId>
    decreases s.len() - i,
{
    if i < 0 || i >= s.len() {
        None
    } else if t.name(s[i]) == "instance"@ && attribute_of(t, s[i], "id"@) is None {
        Some(s[i])
    } else {
        primary_from(t, s, i + 1)
    }
}

/// The root element of the instance that answers are written in.
pub open spec fn primary_root(t: Tree, s: Seq<NodeId>) -> Option<NodeId> {
    match primary_from(t, s, 0) {
        Some(n) => if t.children(n).len() > 0 {
            Some(t.children(n)[0])
        } else {
            None
        },
        None => None,
    }
}

/// The shape of the instances of a form.
pub open spec fn shape_of(t: Tree) -> ShapeModel {
    match t.root {
        None => ShapeModel { paths: Seq::empty(), tables: Seq::empty(), root: None },
        Some(root) => {
            let s = document(t, root);
            match primary_root(t, s) {
                Some(n) => ShapeModel {
                    paths: element_paths(t, n, ""@),
                    tables: instance_ids(t, s, 0),
                    root: Some(t.name(n)),
                },
                None => ShapeModel {
                    paths: Seq::empty(),
                    tables: instance_ids(t, s, 0),
                    root: None,
                },
            }
        },
    }
}

/// What stands before the first `c`, or the whole text without one.
pub open spec fn before_first(s: Seq<char>, c: char) -> Seq<char> {
    s.take(span(s, 0, Class::Not(c)))
}

/// The name of the first element of an absolute path.
pub open spec fn first_name(path: Seq<char>) -> Seq<char> {
    let parts = split_on(path, '/');
    if parts.len() > 1 {
        parts[1]
    } else {
        ""@
    }
}

/// Whether a path is the only one of a list that ends in a text.
pub open spec fn only_ending(known: Seq<Seq<char>>, end: Seq<char>, p: Seq<char>) -> bool {
    known.contains(p) && finishes_with(p, end) && forall|q: Seq<char>|
        #[trigger] known.contains(q) && finishes_with(q, end) ==> q == p
}

/// The known path closest to a mistyped one: the only one with its last
/// name. With two candidates it would be a guess, not a suggestion.
pub open spec fn nearest_to(wanted: Seq<char>, known: Seq<Seq<char>>) -> Option<Seq<char>> {
    let end = "/"@ + after_last(wanted, '/');
    if exists|p: Seq<char>| only_ending(known, end, p) {
        Some(choose|p: Seq<char>| only_ending(known, end, p))
    } else {
        None
    }
}

impl ShapeModel {
    /// Whether a path names anything. Attributes count: `/data/@id` is a
    /// node a form may legitimately read.
    pub open spec fn holds(self, path: Seq<char>) -> bool {
        self.paths.contains(trim_end_of(before_first(path, '@'), '/'))
    }

    /// What to write in place of a path that names nothing.
    pub open spec fn suggestion(self, path: Seq<char>) -> Option<Seq<char>> {
        match nearest_to(path, self.paths) {
            Some(near) => Some(near),
            None => match self.root {
                Some(name) if first_name(path) != name => Some(
                    "a path under /"@ + name + " — that is this form's instance root, not /"@
                        + first_name(path),
                ),
                _ => None,
            },
        }
    }

    /// What is wrong with the paths that an expression reads, from the one
    /// at `k` on. A path into a lookup table is checked by its table's name:
    /// an external file has no inline shape to check the rest against.
    pub open spec fn missing(self, wanted: Seq<Seq<char>>, k: int) -> Seq<FindingModel>
        decreases wanted.len() - k,
    {
        if k < 0 || k >= wanted.len() {
            Seq::empty()
        } else if wanted.take(k).contains(wanted[k]) || self.holds(wanted[k])
            || self.tables.contains(first_name(wanted[k])) {
            self.missing(wanted, k + 1)
        } else {
            seq![
                FindingModel {
                    construct: wanted[k] + ", which this form's instance has no node for"@,
                    breaks: Breaks::Everywhere,
                    effect: MATCHES_NOTHING@,
                    suggestion: self.suggestion(wanted[k]),
                },
            ] + self.missing(wanted, k + 1)
        }
    }

    /// What an expression reads that the instance has no node for. A form
    /// whose instance could not be read at all would report every path as
    /// missing, which is noise rather than a finding.
    pub open spec fn path_findings(self, e: ExprModel, from: Seq<char>) -> Seq<FindingModel> {
        if self.paths.len() == 0 {
            Seq::empty()
        } else {
            self.missing(gathered(e, from, true), 0)
        }
    }
}

pub const MATCHES_NOTHING: &'static str =
    "the path matches nothing, so the rule reads an empty node-set: a calculation comes out 0, a comparison comes out false, and a relevant hides its question for the whole of fieldwork";

/// The path that steps name, where it can be checked. Steps that cannot be
/// named at all are not.
pub open spec fn own_path(
    absolute: bool,
    steps: Seq<StepModel>,
    from: Seq<char>,
    at_top: bool,
) -> Seq<Seq<char>> {
    match path_text(absolute, steps, from) {
        Some(path) => if absolute || at_top {
            seq![path]
        } else {
            Seq::empty()
        },
        None => Seq::empty(),
    }
}

/// The paths of an expression whose meaning does not depend on where they
/// sit.
///
/// An absolute path names the same node wherever it appears, so it can
/// always be checked. A relative one is read from the context node, and
/// inside a predicate that node is whatever the step selected: in
/// `instance('linhas')/root/item[name = /data/x]/lote`, `name` is a child of
/// the table's item and has nothing to do with the bind. So relative paths
/// are checked only where the context is the bound node: at the top level of
/// the expression, which is where `../idade` lives.
pub open spec fn gathered(e: ExprModel, from: Seq<char>, at_top: bool) -> Seq<Seq<char>>
    decreases e, 0nat,
{
    match e {
        ExprModel::Path { absolute, steps } => own_path(absolute, steps, from, at_top)
            + gathered_steps(steps, 0, from),
        ExprModel::Filter { base, predicates, steps } => gathered(*base, from, false)
            + gathered_all(predicates, 0, from, false) + gathered_steps(steps, 0, from),
        ExprModel::Function { name, args } => gathered_all(args, 0, from, at_top),
        ExprModel::Binary { op, left, right } => gathered(*left, from, at_top) + gathered(
            *right,
            from,
            at_top,
        ),
        ExprModel::Union(left, right) => gathered(*left, from, at_top) + gathered(
            *right,
            from,
            at_top,
        ),
        ExprModel::Negate(inner) => gathered(*inner, from, at_top),
        _ => Seq::empty(),
    }
}

pub open spec fn gathered_all(s: Seq<ExprModel>, k: int, from: Seq<char>, at_top: bool) -> Seq<
    Seq<char>,
>
    decreases s, s.len() - k,
{
    if k < 0 || k >= s.len() {
        Seq::empty()
    } else {
        gathered(s[k], from, at_top) + gathered_all(s, k + 1, from, at_top)
    }
}

/// The paths in the predicates of steps.
pub open spec fn gathered_steps(s: Seq<StepModel>, k: int, from: Seq<char>) -> Seq<Seq<char>>
    decreases s, s.len() - k,
{
    if k < 0 || k >= s.len() {
        Seq::empty()
    } else {
        gathered_all(s[k].predicates, 0, from, false) + gathered_steps(s, k + 1, from)
    }
}

// ---------------------------------------------------------------------------
// Reading the shape
// ---------------------------------------------------------------------------

fn walk(document: &Instance, node: NodeId, prefix: &str, into: &mut Vec<String>)
    requires
        document@.wf(),
        document@.has(node),
    ensures
        texts(final(into)@) == texts(old(into)@) + element_paths(document@, node, prefix@),
    decreases document@.height(node), 0nat,
{
    let ghost t = document@;
    let ghost before = texts(into@);
    let ghost was = into@;
    let here = cat3(prefix, "/", document.node(node).name.as_str());
    into.push(here.clone());
    assert(texts(into@) == texts(was).push(here@));
    let ghost all = texts(into@) + element_paths_below(t, node, 0, here@);
    let children = document.children(node);
    let n = children.len();
    proof {
        t.lemma_children_in(node);
        t.lemma_ranking();
    }
    for i in 0..n
        invariant
            t == document@,
            t.wf(),
            t.has(node),
            t.ranked(t.ranking()),
            n == children@.len(),
            children@ == t.children(node),
            t.all_in(children@),
            all == texts(into@) + element_paths_below(t, node, i as int, here@),
    {
        let ghost then = texts(into@);
        assert(t.has(children@[i as int]));
        assert(t.nodes[node.0 as int].children[i as int] == children@[i as int]);
        walk(document, children[i], here.as_str(), into);
        assert(then + (element_paths(t, children@[i as int], here@) + element_paths_below(
            t,
            node,
            i + 1,
            here@,
        )) == texts(into@) + element_paths_below(t, node, i + 1, here@));
    }
    assert(texts(into@) + Seq::<Seq<char>>::empty() == texts(into@));
    assert(before.push(here@) + element_paths_below(t, node, 0, here@) == before + (seq![here@]
        + element_paths_below(t, node, 0, here@)));
}

fn table_ids(document: &Instance, nodes: &Vec<NodeId>) -> (r: Vec<String>)
    requires
        document@.wf(),
        document@.all_in(nodes@),
    ensures
        texts(r@) == instance_ids(document@, nodes@, 0),
{
    let mut out: Vec<String> = Vec::new();
    let ghost all = instance_ids(document@, nodes@, 0);
    assert(texts(out@) + all == all);
    let n = nodes.len();
    for i in 0..n
        invariant
            n == nodes@.len(),
            document@.wf(),
            document@.all_in(nodes@),
            all == texts(out@) + instance_ids(document@, nodes@, i as int),
    {
        assert(document@.has(nodes@[i as int]));
        let ghost was = out@;
        if same(document.node(nodes[i]).name.as_str(), "instance") {
            if let Some(id) = attribute(document, nodes[i], "id") {
                let ghost text = id@;
                out.push(id);
                assert(texts(out@) == texts(was).push(text));
            }
        }
        assert(texts(was) + instance_ids(document@, nodes@, i as int) == texts(out@) + instance_ids(
            document@,
            nodes@,
            i + 1,
        ));
    }
    assert(texts(out@) + Seq::<Seq<char>>::empty() == texts(out@));
    out
}

fn primary(document: &Instance, nodes: &Vec<NodeId>) -> (r: Option<NodeId>)
    requires
        document@.wf(),
        document@.all_in(nodes@),
    ensures
        r == primary_root(document@, nodes@),
        r matches Some(n) ==> document@.has(n),
{
    let n = nodes.len();
    for i in 0..n
        invariant
            n == nodes@.len(),
            document@.wf(),
            document@.all_in(nodes@),
            primary_from(document@, nodes@, 0) == primary_from(document@, nodes@, i as int),
    {
        assert(document@.has(nodes@[i as int]));
        if same(document.node(nodes[i]).name.as_str(), "instance") && attribute(
            document,
            nodes[i],
            "id",
        ).is_none() {
            let children = document.children(nodes[i]);
            proof {
                document@.lemma_children_in(nodes@[i as int]);
            }
            return if children.len() > 0 {
                assert(document@.has(children@[0]));
                Some(children[0])
            } else {
                None
            };
        }
    }
    None
}

fn listed(v: &Vec<String>, n: usize, s: &str) -> (r: bool)
    requires
        n <= v@.len(),
    ensures
        r == texts(v@).take(n as int).contains(s@),
{
    let ghost all = texts(v@).take(n as int);
    for i in 0..n
        invariant
            n <= v@.len(),
            all == texts(v@).take(n as int),
            forall|j: int| 0 <= j < i ==> #[trigger] all[j] != s@,
    {
        assert(all[i as int] == v@[i as int]@);
        if same(v[i].as_str(), s) {
            assert(all.contains(s@));
            return true;
        }
    }
    false
}

/// The known path closest to a mistyped one, when there is an obvious
/// candidate: a suggestion is worth more than a complaint.
fn nearest(wanted: &str, known: &Vec<String>) -> (r: Option<String>)
    ensures
        inside(r) == nearest_to(wanted@, texts(known@)),
{
    let ghost all = texts(known@);
    let end = cat2("/", past_last(wanted, '/').as_str());
    let mut found: Option<usize> = None;
    let n = known.len();
    for i in 0..n
        invariant
            n == known@.len(),
            all == texts(known@),
            end@ == "/"@ + after_last(wanted@, '/'),
            match found {
                Some(k) => k < i && finishes_with(all[k as int], end@) && forall|j: int|
                    0 <= j < i && finishes_with(#[trigger] all[j], end@) ==> all[j]
                        == all[k as int],
                None => forall|j: int| 0 <= j < i ==> !finishes_with(#[trigger] all[j], end@),
            },
    {
        assert(all[i as int] == known@[i as int]@);
        if ends(known[i].as_str(), end.as_str()) {
            match found {
                Some(k) => {
                    if !same(known[k].as_str(), known[i].as_str()) {
                        proof {
                            assert(all.contains(all[k as int]) && all.contains(all[i as int]));
                            assert(!exists|p: Seq<char>| only_ending(all, end@, p));
                        }
                        return None;
                    }
                },
                None => {
                    found = Some(i);
                },
            }
        }
    }
    match found {
        Some(k) => {
            proof {
                assert(all.contains(all[k as int]));
                assert(only_ending(all, end@, all[k as int]));
            }
            Some(known[k].clone())
        },
        None => None,
    }
}

fn first_part(path: &str) -> (r: String)
    ensures
        r@ == first_name(path@),
{
    let parts = split(path, '/');
    if parts.len() > 1 {
        assert(texts(parts@)[1] == parts@[1]@);
        parts[1].clone()
    } else {
        "".to_string()
    }
}

impl Shape {
    pub(crate) fn of(document: &Instance) -> (r: Shape)
        requires
            document@.wf(),
        ensures
            r@ == shape_of(document@),
    {
        let mut paths: Vec<String> = Vec::new();
        assert(texts(paths@) == Seq::<Seq<char>>::empty());
        let root = match document.root() {
            None => {
                let tables: Vec<String> = Vec::new();
                assert(texts(tables@) == Seq::<Seq<char>>::empty());
                return Shape { paths, tables, root: None };
            },
            Some(root) => root,
        };
        let nodes = all_nodes(document, root);
        let tables = table_ids(document, &nodes);
        match primary(document, &nodes) {
            Some(n) => {
                walk(document, n, "", &mut paths);
                let ghost p = element_paths(document@, n, ""@);
                assert(Seq::<Seq<char>>::empty() + p == p);
                Shape { paths, tables, root: Some(document.node(n).name.clone()) }
            },
            None => Shape { paths, tables, root: None },
        }
    }

    /// Whether a path names anything.
    fn holds(&self, path: &str) -> (r: bool)
        ensures
            r == self@.holds(path@),
    {
        let v = chars_of(path);
        let head = slice_chars(&v, 0, end_of_run(&v, 0, Class::Not('@')));
        assert(head@ == before_first(path@, '@'));
        let bare = trimmed_end_of(&head, '/');
        assert(texts(self.paths@).take(self.paths@.len() as int) == texts(self.paths@));
        listed(&self.paths, self.paths.len(), string_of(&bare).as_str())
    }

    fn suggest(&self, path: &str) -> (r: Option<String>)
        ensures
            inside(r) == self@.suggestion(path@),
    {
        if let Some(near) = nearest(path, &self.paths) {
            return Some(near);
        }
        let first = first_part(path);
        match &self.root {
            Some(name) => {
                if same(first.as_str(), name.as_str()) {
                    None
                } else {
                    Some(
                        cat4(
                            "a path under /",
                            name.as_str(),
                            " — that is this form's instance root, not /",
                            first.as_str(),
                        ),
                    )
                }
            },
            None => None,
        }
    }
}

/// Report every absolute path in an expression that the instance has no node
/// for.
pub(crate) fn check_paths(expr: &Expr, from: &str, shape: &Shape, out: &mut Vec<Finding>)
    ensures
        finding_models(final(out)@) == finding_models(old(out)@) + shape@.path_findings(
            expr@,
            from@,
        ),
{
    let ghost before = finding_models(out@);
    if shape.paths.len() == 0 {
        assert(before + Seq::<FindingModel>::empty() == before);
        return;
    }
    let mut wanted: Vec<String> = Vec::new();
    assert(texts(wanted@) == Seq::<Seq<char>>::empty());
    gather(expr, from, true, &mut wanted);
    let ghost w = gathered(expr@, from@, true);
    assert(Seq::<Seq<char>>::empty() + w == w);
    let ghost model = shape@;
    let ghost all = before + model.missing(w, 0);
    let n = wanted.len();
    for k in 0..n
        invariant
            n == wanted@.len(),
            w == texts(wanted@),
            model == shape@,
            all == finding_models(out@) + model.missing(w, k as int),
    {
        let path = wanted[k].as_str();
        assert(path@ == w[k as int]);
        let ghost was = finding_models(out@);
        if !listed(&wanted, k, path) && !shape.holds(path) {
            let first = first_part(path);
            assert(texts(shape.tables@).take(shape.tables@.len() as int) == model.tables);
            if !listed(&shape.tables, shape.tables.len(), first.as_str()) {
                let suggestion = shape.suggest(path);
                report(
                    out,
                    cat2(path, ", which this form's instance has no node for"),
                    Breaks::Everywhere,
                    MATCHES_NOTHING,
                    suggestion,
                );
            }
        }
        assert(was + model.missing(w, k as int) == finding_models(out@) + model.missing(w, k + 1));
    }
    assert(finding_models(out@) + Seq::<FindingModel>::empty() == finding_models(out@));
}

fn gather(expr: &Expr, from: &str, at_top: bool, out: &mut Vec<String>)
    ensures
        texts(final(out)@) == texts(old(out)@) + gathered(expr@, from@, at_top),
    decreases expr, 0nat,
{
    let ghost before = texts(out@);
    match expr {
        Expr::Path { absolute, steps } => {
            let ghost named = own_path(*absolute, steps_model(*steps), from@, at_top);
            let ghost was = out@;
            if *absolute || at_top {
                if let Some(path) = named_path(*absolute, steps, from) {
                    let ghost text = path@;
                    out.push(path);
                    assert(texts(out@) == texts(was).push(text));
                }
            }
            assert(texts(out@) == before + named);
            gather_steps(steps, from, out);
            assert(texts(out@) == before + (named + gathered_steps(steps_model(*steps), 0, from@)));
        },
        Expr::Filter { base, predicates, steps } => {
            gather(base, from, false, out);
            gather_all(predicates, from, false, out);
            gather_steps(steps, from, out);
            assert(texts(out@) == before + (gathered(base@, from@, false) + gathered_all(
                exprs_model(*predicates),
                0,
                from@,
                false,
            ) + gathered_steps(steps_model(*steps), 0, from@)));
        },
        Expr::Function { args, .. } => gather_all(args, from, at_top, out),
        Expr::Binary { left, right, .. } => {
            gather(left, from, at_top, out);
            gather(right, from, at_top, out);
            assert(texts(out@) == before + (gathered(left@, from@, at_top) + gathered(
                right@,
                from@,
                at_top,
            )));
        },
        Expr::Union(left, right) => {
            gather(left, from, at_top, out);
            gather(right, from, at_top, out);
            assert(texts(out@) == before + (gathered(left@, from@, at_top) + gathered(
                right@,
                from@,
                at_top,
            )));
        },
        Expr::Negate(inner) => gather(inner, from, at_top, out),
        Expr::Number(_) => {
            assert(before + Seq::<Seq<char>>::empty() == before);
        },
        Expr::Literal(_) => {
            assert(before + Seq::<Seq<char>>::empty() == before);
        },
        Expr::Variable(_) => {
            assert(before + Seq::<Seq<char>>::empty() == before);
        },
    }
}

fn gather_all(exprs: &Vec<Expr>, from: &str, at_top: bool, out: &mut Vec<String>)
    ensures
        texts(final(out)@) == texts(old(out)@) + gathered_all(
            exprs_model(*exprs),
            0,
            from@,
            at_top,
        ),
    decreases exprs, 1nat,
{
    let ghost model = exprs_model(*exprs);
    let ghost all = texts(out@) + gathered_all(model, 0, from@, at_top);
    proof {
        lemma_models(*exprs);
    }
    let n = exprs.len();
    for k in 0..n
        invariant
            n == exprs@.len(),
            model == exprs_model(*exprs),
            model == expr_models(exprs@),
            all == texts(out@) + gathered_all(model, k as int, from@, at_top),
    {
        assert(decreases_to!(exprs => exprs@[k as int]));
        let ghost was = texts(out@);
        gather(&exprs[k], from, at_top, out);
        assert(model[k as int] == exprs@[k as int]@);
        assert(was + (gathered(model[k as int], from@, at_top) + gathered_all(
            model,
            k + 1,
            from@,
            at_top,
        )) == texts(out@) + gathered_all(model, k + 1, from@, at_top));
    }
    assert(texts(out@) + Seq::<Seq<char>>::empty() == texts(out@));
}

fn gather_steps(steps: &Vec<Step>, from: &str, out: &mut Vec<String>)
    ensures
        texts(final(out)@) == texts(old(out)@) + gathered_steps(steps_model(*steps), 0, from@),
    decreases steps, 1nat,
{
    let ghost model = steps_model(*steps);
    let ghost all = texts(out@) + gathered_steps(model, 0, from@);
    proof {
        lemma_step_models(*steps);
    }
    let n = steps.len();
    for k in 0..n
        invariant
            n == steps@.len(),
            model == steps_model(*steps),
            model == step_models(steps@),
            all == texts(out@) + gathered_steps(model, k as int, from@),
    {
        assert(decreases_to!(steps => steps@[k as int].predicates));
        let ghost was = texts(out@);
        gather_all(&steps[k].predicates, from, false, out);
        assert(model[k as int] == steps@[k as int]@);
        assert(was + (gathered_all(model[k as int].predicates, 0, from@, false) + gathered_steps(
            model,
            k + 1,
            from@,
        )) == texts(out@) + gathered_steps(model, k + 1, from@));
    }
    assert(texts(out@) + Seq::<Seq<char>>::empty() == texts(out@));
}

} // verus!
