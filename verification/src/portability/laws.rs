//! Whatever does not travel is found, wherever in a form it stands.

use crate::eval::value::number_text;
use crate::parser::ast::{Axis, BinaryOp, ExprModel, StepModel, TestModel};
use crate::parser::grammar::parse_model;
use crate::parser::parts::{is_direct_part, is_part_at, is_predicate_of, is_within, lemma_in_sum};
use crate::portability::constructs::{
    absolute_path, anchored, bar_outside, call_findings, compares, inspected, inspected_all,
    inspected_predicates, inspected_steps, pattern_findings, position_findings, side_findings,
    step_findings, FindingModel,
};
use crate::portability::{
    bind_issues, form_issues, issues_from, repeats_from, rule_issues, Breaks, IssueModel,
    Surrounding,
};
use crate::portability::shape::shape_of;
use crate::rules::form::{bound_path, document, said};
use crate::rules::reading::leads_by;
use crate::text::laws::law_beginnings_and_ends;
use crate::text::{join, trim, trim_end_of};
use crate::tree::xml::form_tree;
use crate::tree::{NodeId, Tree};
use vstd::prelude::*;

verus! {

// ---------------------------------------------------------------------------
// Parts
// ---------------------------------------------------------------------------

proof fn lemma_one_inspected(
    s: Seq<ExprModel>,
    k: int,
    i: int,
    repeats: Seq<Seq<char>>,
    f: FindingModel,
)
    requires
        0 <= k <= i < s.len(),
        inspected(s[i], repeats).contains(f),
    ensures
        inspected_all(s, k, repeats).contains(f),
        inspected_predicates(s, k, repeats).contains(f),
    decreases i - k,
{
    let own = inspected(s[k], repeats);
    lemma_in_sum(own, inspected_all(s, k + 1, repeats), f);
    lemma_in_sum(position_findings(s[k]), own, f);
    lemma_in_sum(
        position_findings(s[k]) + own,
        inspected_predicates(s, k + 1, repeats),
        f,
    );
    if k < i {
        lemma_one_inspected(s, k + 1, i, repeats, f);
    }
}

proof fn lemma_place_inspected(
    s: Seq<ExprModel>,
    k: int,
    i: int,
    repeats: Seq<Seq<char>>,
    f: FindingModel,
)
    requires
        0 <= k <= i < s.len(),
        position_findings(s[i]).contains(f),
    ensures
        inspected_predicates(s, k, repeats).contains(f),
    decreases i - k,
{
    let own = inspected(s[k], repeats);
    lemma_in_sum(position_findings(s[k]), own, f);
    lemma_in_sum(
        position_findings(s[k]) + own,
        inspected_predicates(s, k + 1, repeats),
        f,
    );
    if k < i {
        lemma_place_inspected(s, k + 1, i, repeats, f);
    }
}

proof fn lemma_step_inspected(
    s: Seq<StepModel>,
    k: int,
    i: int,
    repeats: Seq<Seq<char>>,
    f: FindingModel,
)
    requires
        0 <= k <= i < s.len(),
        step_findings(s[i]).contains(f) || inspected_predicates(
            s[i].predicates,
            0,
            repeats,
        ).contains(f),
    ensures
        inspected_steps(s, k, repeats).contains(f),
    decreases i - k,
{
    let a = step_findings(s[k]);
    let b = inspected_predicates(s[k].predicates, 0, repeats);
    lemma_in_sum(a, b, f);
    lemma_in_sum(a + b, inspected_steps(s, k + 1, repeats), f);
    if k < i {
        lemma_step_inspected(s, k + 1, i, repeats, f);
    }
}

proof fn lemma_predicate_inspected(
    x: ExprModel,
    s: Seq<StepModel>,
    repeats: Seq<Seq<char>>,
    f: FindingModel,
)
    requires
        is_predicate_of(x, s),
        inspected(x, repeats).contains(f),
    ensures
        inspected_steps(s, 0, repeats).contains(f),
{
    let (k, j) = choose|k: int, j: int|
        0 <= k < s.len() && 0 <= j < s[k].predicates.len() && #[trigger] s[k].predicates[j] == x;
    lemma_one_inspected(s[k].predicates, 0, j, repeats, f);
    lemma_step_inspected(s, 0, k, repeats, f);
}

proof fn lemma_member_inspected(
    x: ExprModel,
    s: Seq<ExprModel>,
    repeats: Seq<Seq<char>>,
    f: FindingModel,
)
    requires
        s.contains(x),
        inspected(x, repeats).contains(f),
    ensures
        inspected_all(s, 0, repeats).contains(f),
{
    let i = choose|i: int| 0 <= i < s.len() && s[i] == x;
    lemma_one_inspected(s, 0, i, repeats, f);
}

proof fn lemma_direct_part_inspected(
    x: ExprModel,
    e: ExprModel,
    repeats: Seq<Seq<char>>,
    f: FindingModel,
)
    requires
        is_direct_part(x, e),
        inspected(x, repeats).contains(f),
    ensures
        inspected(e, repeats).contains(f),
{
    match e {
        ExprModel::Union(left, right) => {
            lemma_in_sum(inspected(*left, repeats), inspected(*right, repeats), f);
        },
        ExprModel::Binary { op, left, right } => {
            let own = if compares(op) {
                side_findings(*left, repeats) + side_findings(*right, repeats)
            } else {
                Seq::empty()
            };
            lemma_in_sum(own, inspected(*left, repeats), f);
            lemma_in_sum(own + inspected(*left, repeats), inspected(*right, repeats), f);
        },
        ExprModel::Function { name, args } => {
            lemma_member_inspected(x, args, repeats, f);
            lemma_in_sum(call_findings(name, args), inspected_all(args, 0, repeats), f);
        },
        ExprModel::Path { absolute, steps } => lemma_predicate_inspected(x, steps, repeats, f),
        ExprModel::Filter { base, predicates, steps } => {
            let a = inspected(*base, repeats);
            let b = inspected_all(predicates, 0, repeats);
            let c = inspected_steps(steps, 0, repeats);
            if predicates.contains(x) {
                lemma_member_inspected(x, predicates, repeats, f);
            } else if x != *base {
                lemma_predicate_inspected(x, steps, repeats, f);
            }
            lemma_in_sum(a, b, f);
            lemma_in_sum(a + b, c, f);
        },
        _ => {},
    }
}

proof fn lemma_part_inspected(
    x: ExprModel,
    e: ExprModel,
    depth: nat,
    repeats: Seq<Seq<char>>,
    f: FindingModel,
)
    requires
        is_part_at(x, e, depth),
        inspected(x, repeats).contains(f),
    ensures
        inspected(e, repeats).contains(f),
    decreases depth,
{
    if depth > 0 {
        let y = choose|y: ExprModel| #[trigger]
            is_direct_part(y, e) && is_part_at(x, y, (depth - 1) as nat);
        lemma_part_inspected(x, y, (depth - 1) as nat, repeats, f);
        lemma_direct_part_inspected(y, e, repeats, f);
    }
}

/// Whatever is found in an expression on its own is found in every
/// expression that has it as a part: an operand, an argument, the base of a
/// path, a predicate wherever one stands.
pub proof fn law_parts_are_inspected(
    x: ExprModel,
    e: ExprModel,
    repeats: Seq<Seq<char>>,
    f: FindingModel,
)
    requires
        is_within(x, e),
        inspected(x, repeats).contains(f),
    ensures
        inspected(e, repeats).contains(f),
{
    let depth = choose|depth: nat| is_part_at(x, e, depth);
    lemma_part_inspected(x, e, depth, repeats, f);
}

// ---------------------------------------------------------------------------
// Calls
// ---------------------------------------------------------------------------

/// The functions that JavaRosa lacks.
pub open spec fn is_missing_on_tablets(name: Seq<char>) -> bool {
    name == "last"@ || name == "floor"@ || name == "ceiling"@ || name == "substring"@
}

/// The functions that Enketo lacks.
pub open spec fn is_missing_on_the_web(name: Seq<char>) -> bool {
    name == "pulldata"@ || name == "enclosed-area"@ || name == "geofence"@ || name
        == "extract-signed"@ || name == "base64-decode"@ || name == "is-selected"@
}

/// The functions that both have and compute apart.
pub open spec fn is_computed_apart(name: Seq<char>) -> bool {
    name == "distance"@ || name == "area"@
}

pub open spec fn is_found(found: Seq<FindingModel>, construct: Seq<char>, breaks: Breaks) -> bool {
    exists|f: FindingModel| #[trigger]
        found.contains(f) && f.construct == construct && f.breaks == breaks
}

proof fn lemma_names_apart()
    ensures
        "last"@ != "pulldata"@,
        "last"@ != "distance"@,
        "last"@ != "area"@,
        "pulldata"@ != "distance"@,
        "pulldata"@ != "area"@,
        "distance"@ != "area"@,
        "floor"@ != "last"@,
        "floor"@ != "pulldata"@,
        "floor"@ != "distance"@,
        "floor"@ != "area"@,
        "ceiling"@ != "last"@,
        "ceiling"@ != "pulldata"@,
        "ceiling"@ != "distance"@,
        "ceiling"@ != "area"@,
        "substring"@ != "last"@,
        "substring"@ != "pulldata"@,
        "substring"@ != "distance"@,
        "substring"@ != "area"@,
        !is_missing_on_tablets("enclosed-area"@),
        !is_missing_on_tablets("geofence"@),
        !is_missing_on_tablets("extract-signed"@),
        !is_missing_on_tablets("base64-decode"@),
        !is_missing_on_tablets("is-selected"@),
        !is_computed_apart("enclosed-area"@),
        !is_computed_apart("geofence"@),
        !is_computed_apart("extract-signed"@),
        !is_computed_apart("base64-decode"@),
        !is_computed_apart("is-selected"@),
        !is_missing_on_tablets("regex"@),
        !is_missing_on_the_web("regex"@),
        !is_computed_apart("regex"@),
        !is_missing_on_tablets("boolean-from-string"@),
        !is_missing_on_the_web("boolean-from-string"@),
        !is_computed_apart("boolean-from-string"@),
        "regex"@ != "boolean-from-string"@,
{
    reveal_strlit("last");
    reveal_strlit("floor");
    reveal_strlit("ceiling");
    reveal_strlit("substring");
    reveal_strlit("pulldata");
    reveal_strlit("enclosed-area");
    reveal_strlit("geofence");
    reveal_strlit("extract-signed");
    reveal_strlit("base64-decode");
    reveal_strlit("is-selected");
    reveal_strlit("distance");
    reveal_strlit("area");
    reveal_strlit("regex");
    reveal_strlit("boolean-from-string");
    assert("boolean-from-string"@.len() == 19);
    assert("enclosed-area"@.len() == 13 && "geofence"@.len() == 8 && "extract-signed"@.len() == 14);
    assert("base64-decode"@.len() == 13 && "is-selected"@.len() == 11 && "pulldata"@.len() == 8);
    assert("last"@[0] == 'l');
    assert("area"@[0] == 'a');
    assert("floor"@[0] == 'f');
    assert("regex"@[0] == 'r');
    assert("pulldata"@[0] == 'p');
    assert("distance"@[0] == 'd');
    assert("geofence"@[0] == 'g');
    assert("ceiling"@[0] == 'c');
    assert("substring"@[0] == 's');
}

/// A call of a function that one of the engines lacks, or that they compute
/// apart, is found wherever it stands, under its name and with the engine
/// that stumbles.
pub proof fn law_calls_that_do_not_travel_are_found(
    e: ExprModel,
    name: Seq<char>,
    args: Seq<ExprModel>,
    repeats: Seq<Seq<char>>,
)
    requires
        is_within(ExprModel::Function { name, args }, e),
    ensures
        is_missing_on_tablets(name) ==> is_found(
            inspected(e, repeats),
            name + "()"@,
            Breaks::Collect,
        ),
        is_missing_on_the_web(name) ==> is_found(
            inspected(e, repeats),
            name + "()"@,
            Breaks::WebForms,
        ),
        is_computed_apart(name) ==> is_found(
            inspected(e, repeats),
            name + "()"@,
            Breaks::Differently,
        ),
{
    let x = ExprModel::Function { name, args };
    lemma_names_apart();
    if is_missing_on_tablets(name) || is_missing_on_the_web(name) || is_computed_apart(name) {
        let own = call_findings(name, args);
        let f = own[0];
        assert(own.contains(f));
        lemma_in_sum(own, inspected_all(args, 0, repeats), f);
        law_parts_are_inspected(x, e, repeats, f);
        assert(inspected(e, repeats).contains(f));
    }
}

// ---------------------------------------------------------------------------
// Patterns
// ---------------------------------------------------------------------------

/// Whether a pattern is bounded at both ends.
pub open spec fn is_bounded(p: Seq<char>) -> bool {
    exists|inner: Seq<char>| p == #[trigger] (seq!['^'] + inner + seq!['$'])
}

/// Whether a character stands for itself as far as groups go: it opens and
/// closes nothing and escapes nothing.
pub open spec fn is_flat(c: char) -> bool {
    c != '\\' && c != '[' && c != '(' && c != ')'
}

proof fn lemma_flat_bar(p: Seq<char>, i: int, j: int, depth: nat)
    requires
        0 <= i <= j < p.len(),
        forall|k: int| i <= k < j ==> is_flat(#[trigger] p[k]) && (p[k] == '|' ==> depth > 0),
    ensures
        bar_outside(p, i, depth, false) == bar_outside(p, j, depth, false),
    decreases j - i,
{
    if i < j {
        assert(is_flat(p[i]));
        lemma_flat_bar(p, i + 1, j, depth);
    }
}

proof fn lemma_no_bar(p: Seq<char>, i: int, depth: nat, in_class: bool)
    requires
        0 <= i,
        !p.contains('|'),
    ensures
        !bar_outside(p, i, depth, in_class),
    decreases p.len() - i + 1,
{
    if i < p.len() {
        assert(p.contains(p[i]));
        if p[i] == '\\' {
            lemma_no_bar(p, i + 2, depth, in_class);
        } else if in_class {
            lemma_no_bar(p, i + 1, depth, p[i] != ']');
        } else if p[i] == '[' {
            lemma_no_bar(p, i + 1, depth, true);
        } else if p[i] == '(' {
            lemma_no_bar(p, i + 1, depth + 1, false);
        } else if p[i] == ')' {
            lemma_no_bar(
                p,
                i + 1,
                if depth == 0 {
                    0
                } else {
                    (depth - 1) as nat
                },
                false,
            );
        } else {
            lemma_no_bar(p, i + 1, depth, false);
        }
    }
}

/// A pattern that a call writes out is found wherever the call stands unless
/// it is bounded at both ends; one that is bounded and has no bar is not
/// found.
pub proof fn law_unbounded_patterns_are_found(
    e: ExprModel,
    value: ExprModel,
    p: Seq<char>,
    repeats: Seq<Seq<char>>,
)
    requires
        is_within(
            ExprModel::Function { name: "regex"@, args: seq![value, ExprModel::Literal(p)] },
            e,
        ),
    ensures
        !is_bounded(p) ==> exists|f: FindingModel| #[trigger]
            inspected(e, repeats).contains(f) && f.breaks == Breaks::Differently && f.suggestion
                == Some("'^(?:"@ + p + ")$'"@),
        is_bounded(p) && !p.contains('|') ==> call_findings(
            "regex"@,
            seq![value, ExprModel::Literal(p)],
        ).len() == 0,
{
    let args = seq![value, ExprModel::Literal(p)];
    let x = ExprModel::Function { name: "regex"@, args };
    lemma_names_apart();
    assert(args[1] == ExprModel::Literal(p));
    if !is_bounded(p) {
        if anchored(p) && p.len() > 1 {
            let inner = p.subrange(1, p.len() - 1);
            assert(p =~= seq!['^'] + inner + seq!['$']);
        }
        let own = pattern_findings(p);
        let f = own[0];
        assert(own.contains(f));
        lemma_in_sum(own, inspected_all(args, 0, repeats), f);
        law_parts_are_inspected(x, e, repeats, f);
        reveal_strlit("'");
        reveal_strlit("'^(?:");
        reveal_strlit("^(?:");
        reveal_strlit(")$");
        reveal_strlit(")$'");
        assert("'"@ + ("^(?:"@ + p + ")$"@) + "'"@ =~= "'^(?:"@ + p + ")$'"@);
        assert(inspected(e, repeats).contains(f));
    } else {
        let inner = choose|inner: Seq<char>| p == #[trigger] (seq!['^'] + inner + seq!['$']);
        assert(p[0] == '^' && p.last() == '$');
        if !p.contains('|') {
            lemma_no_bar(p, 0, 0, false);
        }
    }
}

/// A bar between the two ends of a pattern lets each alternative go with one
/// end alone, and is found; inside a group it holds both, and is not.
pub proof fn law_loose_alternatives_are_found(
    e: ExprModel,
    value: ExprModel,
    a: Seq<char>,
    b: Seq<char>,
    repeats: Seq<Seq<char>>,
)
    requires
        forall|i: int| 0 <= i < a.len() ==> is_flat(#[trigger] a[i]) && a[i] != '|',
        forall|i: int| 0 <= i < b.len() ==> is_flat(#[trigger] b[i]) && b[i] != '|',
    ensures
        is_within(
            ExprModel::Function {
                name: "regex"@,
                args: seq![
                    value,
                    ExprModel::Literal(seq!['^'] + a + seq!['|'] + b + seq!['$']),
                ],
            },
            e,
        ) ==> exists|f: FindingModel| #[trigger]
            inspected(e, repeats).contains(f) && f.breaks == Breaks::Differently,
        call_findings(
            "regex"@,
            seq![value, ExprModel::Literal(seq!['^', '('] + a + seq!['|'] + b + seq![')', '$'])],
        ).len() == 0,
{
    lemma_names_apart();
    let p = seq!['^'] + a + seq!['|'] + b + seq!['$'];
    let i = 1 + a.len() as int;
    assert(p[0] == '^' && p.last() == '$' && p[i] == '|');
    assert forall|k: int| 0 <= k < i implies is_flat(#[trigger] p[k]) && p[k] != '|' by {
        if k > 0 {
            assert(p[k] == a[k - 1]);
        }
    }
    lemma_flat_bar(p, 0, i, 0);
    let args = seq![value, ExprModel::Literal(p)];
    assert(args[1] == ExprModel::Literal(p));
    let x = ExprModel::Function { name: "regex"@, args };
    if is_within(x, e) {
        let own = pattern_findings(p);
        let f = own[0];
        assert(own.contains(f));
        lemma_in_sum(own, inspected_all(args, 0, repeats), f);
        law_parts_are_inspected(x, e, repeats, f);
        assert(inspected(e, repeats).contains(f));
    }
    let q = seq!['^', '('] + a + seq!['|'] + b + seq![')', '$'];
    let j = q.len() - 2;
    assert(q[0] == '^' && q[1] == '(' && q[j] == ')' && q[j + 1] == '$' && q.last() == '$');
    assert forall|k: int| 2 <= k < j implies is_flat(#[trigger] q[k]) by {
        if k < 2 + a.len() {
            assert(q[k] == a[k - 2]);
        } else if k > 2 + a.len() {
            assert(q[k] == b[k - 3 - a.len()]);
        }
    }
    lemma_flat_bar(q, 2, j, 1);
    reveal_with_fuel(bar_outside, 4);
    assert(!bar_outside(q, 0, 0, false));
    let whole = seq![value, ExprModel::Literal(q)];
    assert(whole[1] == ExprModel::Literal(q));
}

/// A pattern that is not written out is found, and so is a casing of "true"
/// that the engines do not agree on.
pub proof fn law_unclear_arguments_are_found(
    e: ExprModel,
    args: Seq<ExprModel>,
    repeats: Seq<Seq<char>>,
)
    ensures
        is_within(ExprModel::Function { name: "regex"@, args }, e) && args.len() == 2 && !(
        args[1] is Literal) ==> exists|f: FindingModel| #[trigger]
            inspected(e, repeats).contains(f) && f.breaks == Breaks::Differently,
        is_within(
            ExprModel::Function {
                name: "boolean-from-string"@,
                args: seq![ExprModel::Literal("True"@)],
            },
            e,
        ) ==> exists|f: FindingModel| #[trigger]
            inspected(e, repeats).contains(f) && f.breaks == Breaks::Differently,
        call_findings(
            "boolean-from-string"@,
            seq![ExprModel::Literal("true"@)],
        ).len() == 0,
{
    lemma_names_apart();
    let x = ExprModel::Function { name: "regex"@, args };
    if is_within(x, e) && args.len() == 2 && !(args[1] is Literal) {
        let own = call_findings("regex"@, args);
        let f = own[0];
        assert(own.contains(f));
        lemma_in_sum(own, inspected_all(args, 0, repeats), f);
        law_parts_are_inspected(x, e, repeats, f);
        assert(inspected(e, repeats).contains(f));
    }
    reveal_strlit("True");
    reveal_strlit("true");
    assert("True"@[0] != "true"@[0]);
    let cased = seq![ExprModel::Literal("True"@)];
    assert(cased[0] == ExprModel::Literal("True"@));
    let lower = seq![ExprModel::Literal("true"@)];
    assert(lower[0] == ExprModel::Literal("true"@));
    let y = ExprModel::Function { name: "boolean-from-string"@, args: cased };
    if is_within(y, e) {
        let own = call_findings("boolean-from-string"@, cased);
        let f = own[0];
        assert(own.contains(f));
        lemma_in_sum(own, inspected_all(cased, 0, repeats), f);
        law_parts_are_inspected(y, e, repeats, f);
        assert(inspected(e, repeats).contains(f));
    }
}

// ---------------------------------------------------------------------------
// Paths
// ---------------------------------------------------------------------------

/// A field that repeats, or one inside what repeats, is found where it is
/// compared with anything, on either side.
pub proof fn law_compared_repeats_are_found(
    e: ExprModel,
    op: BinaryOp,
    left: ExprModel,
    right: ExprModel,
    steps: Seq<StepModel>,
    names: Seq<Seq<char>>,
    repeat: Seq<Seq<char>>,
    repeats: Seq<Seq<char>>,
)
    requires
        is_within(
            ExprModel::Binary { op, left: Box::new(left), right: Box::new(right) },
            e,
        ),
        op is Equal || op is NotEqual || op is Less || op is LessEqual || op is Greater
            || op is GreaterEqual,
        left == (ExprModel::Path { absolute: true, steps }) || right == (ExprModel::Path {
            absolute: true,
            steps,
        }),
        leads_by(steps, 0, names),
        forall|i: int| 0 <= i < steps.len() ==> (#[trigger] steps[i]).predicates.len() == 0,
        0 < repeat.len() <= names.len(),
        names.take(repeat.len() as int) == repeat,
        repeat.last().len() > 0,
        repeat.last().last() != '/',
        repeats.contains("/"@ + join(repeat, "/"@)),
    ensures
        is_found(
            inspected(e, repeats),
            "comparing "@ + ("/"@ + join(names, "/"@)) + ", which repeats"@,
            Breaks::Collect,
        ),
{
    let x = ExprModel::Binary { op, left: Box::new(left), right: Box::new(right) };
    let side = ExprModel::Path { absolute: true, steps };
    let path = "/"@ + join(names, "/"@);
    let over = "/"@ + join(repeat, "/"@);
    assert(Seq::new(steps.len(), |i: int| steps[i].test->Named_0) =~= names) by {
        assert forall|i: int| 0 <= i < steps.len() implies steps[i].test->Named_0 == names[i] by {
            assert(steps[i].axis == Axis::Child);
        }
    }
    assert(absolute_path(side) == Some(path)) by {
        assert forall|i: int| 0 <= i < steps.len() implies crate::portability::constructs::is_plain(
            #[trigger] steps[i],
        ) by {
            assert(steps[i].axis == Axis::Child);
        }
    }
    reveal_strlit("/");
    lemma_join_last(repeat);
    assert(over.last() == repeat.last().last());
    assert(trim_end_of(over, '/') =~= over);
    lemma_join_prefix(names, repeat.len() as int);
    if names.len() == repeat.len() {
        assert(names.take(repeat.len() as int) =~= names);
    } else {
        let rest = join(names.skip(repeat.len() as int), "/"@);
        assert(path =~= (over + "/"@) + rest);
        law_beginnings_and_ends(path, over + "/"@, rest);
    }
    let i = choose|i: int| 0 <= i < repeats.len() && repeats[i] == over;
    assert(crate::portability::constructs::crosses(path, repeats[i]));
    let own = side_findings(side, repeats);
    let f = own[0];
    assert(own.contains(f));
    lemma_in_sum(side_findings(left, repeats), side_findings(right, repeats), f);
    let both = side_findings(left, repeats) + side_findings(right, repeats);
    lemma_in_sum(both, inspected(left, repeats), f);
    lemma_in_sum(both + inspected(left, repeats), inspected(right, repeats), f);
    law_parts_are_inspected(x, e, repeats, f);
    assert(inspected(e, repeats).contains(f));
}

proof fn lemma_join_last(parts: Seq<Seq<char>>)
    requires
        parts.len() > 0,
        parts.last().len() > 0,
    ensures
        join(parts, "/"@).len() > 0,
        join(parts, "/"@).last() == parts.last().last(),
{
}

/// What names are written as begins with what the first of them are.
proof fn lemma_join_prefix(names: Seq<Seq<char>>, k: int)
    requires
        0 < k < names.len() || k == names.len(),
    ensures
        k < names.len() ==> join(names, "/"@) == join(names.take(k), "/"@) + "/"@ + join(
            names.skip(k),
            "/"@,
        ),
    decreases names.len(),
{
    if k < names.len() {
        let d = names.drop_last();
        if k == names.len() - 1 {
            assert(names.take(k) =~= d);
            assert(names.skip(k) =~= seq![names.last()]);
            assert(join(seq![names.last()], "/"@) == names.last());
        } else {
            lemma_join_prefix(d, k);
            assert(d.take(k) =~= names.take(k));
            let tail = names.skip(k);
            assert(tail.drop_last() =~= d.skip(k));
            assert(tail.last() == names.last());
            assert(join(names, "/"@) =~= join(names.take(k), "/"@) + "/"@ + join(tail, "/"@));
        }
    }
}

/// Whether a step is one of the steps of an expression.
pub open spec fn has_step(x: ExprModel, s: StepModel) -> bool {
    match x {
        ExprModel::Path { absolute, steps } => steps.contains(s),
        ExprModel::Filter { base, predicates, steps } => steps.contains(s),
        _ => false,
    }
}

/// A step to any depth is found wherever it stands, and so is a place that
/// is given by a bare number.
pub proof fn law_steps_that_do_not_travel_are_found(
    e: ExprModel,
    x: ExprModel,
    s: StepModel,
    repeats: Seq<Seq<char>>,
)
    requires
        is_within(x, e),
        has_step(x, s),
    ensures
        s.axis == Axis::DescendantOrSelf && s.test == TestModel::Any ==> is_found(
            inspected(e, repeats),
            "the // shorthand"@,
            Breaks::Collect,
        ),
        forall|n: crate::number::Number|
            #[trigger] s.predicates.contains(ExprModel::Number(n)) ==> is_found(
                inspected(e, repeats),
                "the positional predicate ["@ + number_text(n) + "]"@,
                Breaks::Collect,
            ),
{
    let steps = match x {
        ExprModel::Path { absolute, steps } => steps,
        ExprModel::Filter { base, predicates, steps } => steps,
        _ => Seq::empty(),
    };
    let k = choose|k: int| 0 <= k < steps.len() && steps[k] == s;
    if s.axis == Axis::DescendantOrSelf && s.test == TestModel::Any {
        let f = step_findings(s)[0];
        assert(step_findings(s).contains(f));
        lemma_step_inspected(steps, 0, k, repeats, f);
        lemma_steps_of(x, steps, repeats, f);
        law_parts_are_inspected(x, e, repeats, f);
        assert(inspected(e, repeats).contains(f));
    }
    assert forall|n: crate::number::Number|
        #[trigger] s.predicates.contains(ExprModel::Number(n)) implies is_found(
        inspected(e, repeats),
        "the positional predicate ["@ + number_text(n) + "]"@,
        Breaks::Collect,
    ) by {
        let p = ExprModel::Number(n);
        let j = choose|j: int| 0 <= j < s.predicates.len() && s.predicates[j] == p;
        let f = position_findings(p)[0];
        assert(position_findings(p).contains(f));
        lemma_place_inspected(s.predicates, 0, j, repeats, f);
        lemma_step_inspected(steps, 0, k, repeats, f);
        lemma_steps_of(x, steps, repeats, f);
        law_parts_are_inspected(x, e, repeats, f);
        assert(inspected(e, repeats).contains(f));
    }
}

proof fn lemma_steps_of(
    x: ExprModel,
    steps: Seq<StepModel>,
    repeats: Seq<Seq<char>>,
    f: FindingModel,
)
    requires
        inspected_steps(steps, 0, repeats).contains(f),
        match x {
            ExprModel::Path { absolute, steps: own } => own == steps,
            ExprModel::Filter { base, predicates, steps: own } => own == steps,
            _ => false,
        },
    ensures
        inspected(x, repeats).contains(f),
{
    if let ExprModel::Filter { base, predicates, steps: own } = x {
        let a = inspected(*base, repeats);
        let b = inspected_all(predicates, 0, repeats);
        lemma_in_sum(a + b, inspected_steps(steps, 0, repeats), f);
    }
}

// ---------------------------------------------------------------------------
// Forms
// ---------------------------------------------------------------------------

/// The rules that a bind may state.
pub open spec fn is_rule(rule: Seq<char>) -> bool {
    rule == "relevant"@ || rule == "calculate"@ || rule == "constraint"@ || rule == "required"@
        || rule == "readonly"@
}

/// Whatever is found in the expression of a rule of a bind, or in the paths
/// that it reads, is among the issues of the form, with the bind's path, the rule's name and the
/// expression.
pub proof fn law_every_rule_is_inspected(
    xform: Seq<char>,
    t: Tree,
    root: NodeId,
    n: NodeId,
    path: Seq<char>,
    rule: Seq<char>,
    text: Seq<char>,
    e: ExprModel,
    f: FindingModel,
)
    requires
        form_tree(xform) == Ok::<Tree, Seq<char>>(t),
        t.root == Some(root),
        document(t, root).contains(n),
        t.name(n) == "bind"@,
        bound_path(t, n) == Some(path),
        is_rule(rule),
        said(t, n, rule) == Some(text),
        parse_model(text) == Ok::<ExprModel, Seq<char>>(e),
        inspected(e, repeats_from(t, document(t, root), 0)).contains(f) || shape_of(
            t,
        ).path_findings(e, path).contains(f),
    ensures
        form_issues(xform) matches Ok(issues) && issues.contains(
            IssueModel { path: trim(path), rule, expression: trim(text), finding: f },
        ),
{
    let s = document(t, root);
    let form = Surrounding { repeats: repeats_from(t, s, 0), shape: shape_of(t) };
    let issue = IssueModel { path: trim(path), rule, expression: trim(text), finding: f };
    let a = inspected(e, form.repeats);
    let b = form.shape.path_findings(e, path);
    lemma_in_sum(a, b, f);
    let k = choose|k: int| 0 <= k < (a + b).len() && (a + b)[k] == f;
    let own = rule_issues(t, n, path, rule, form);
    assert(own[k] == issue);
    assert(own.contains(issue));
    let r1 = rule_issues(t, n, path, "relevant"@, form);
    let r2 = rule_issues(t, n, path, "calculate"@, form);
    let r3 = rule_issues(t, n, path, "constraint"@, form);
    let r4 = rule_issues(t, n, path, "required"@, form);
    let r5 = rule_issues(t, n, path, "readonly"@, form);
    lemma_in_sum(r1, r2, issue);
    lemma_in_sum(r1 + r2, r3, issue);
    lemma_in_sum(r1 + r2 + r3, r4, issue);
    lemma_in_sum(r1 + r2 + r3 + r4, r5, issue);
    assert(bind_issues(t, n, form).contains(issue));
    let i = choose|i: int| 0 <= i < s.len() && s[i] == n;
    lemma_bind_reported(t, s, 0, i, form, issue);
}

proof fn lemma_bind_reported(
    t: Tree,
    s: Seq<NodeId>,
    k: int,
    i: int,
    form: Surrounding,
    issue: IssueModel,
)
    requires
        0 <= k <= i < s.len(),
        t.name(s[i]) == "bind"@,
        bind_issues(t, s[i], form).contains(issue),
    ensures
        issues_from(t, s, k, form).contains(issue),
    decreases i - k,
{
    let own = if t.name(s[k]) == "bind"@ {
        bind_issues(t, s[k], form)
    } else {
        Seq::empty()
    };
    lemma_in_sum(own, issues_from(t, s, k + 1, form), issue);
    if k < i {
        lemma_bind_reported(t, s, k + 1, i, form, issue);
    }
}

} // verus!
