//! Constructs that the two engines do not share.

use crate::eval::value::{format_number, number_text};
use crate::parser::ast::{
    exprs_model, steps_model, Axis, BinaryOp, Expr, ExprModel, NameTest, Step, StepModel,
};
use crate::parser::grammar::{expr_models, lemma_models, lemma_step_models, step_models};
use crate::portability::Breaks;
use crate::rules::binding::inside;
use crate::text::{
    begins_with, cat2, cat3, chars_of, join, joined, quote, quoted, same, starts, string_of, texts,
    trim_end_of, trimmed_end_of,
};
use vstd::prelude::*;

verus! {

/// One construct that does not travel.
#[derive(Debug)]
pub struct Finding {
    /// The construct at fault, as a form author would name it.
    pub construct: String,
    pub breaks: Breaks,
    pub effect: String,
    pub suggestion: Option<String>,
}

/// What a finding says.
#[verifier::ext_equal]
pub struct FindingModel {
    pub construct: Seq<char>,
    pub breaks: Breaks,
    pub effect: Seq<char>,
    pub suggestion: Option<Seq<char>>,
}

impl View for Finding {
    type V = FindingModel;

    open spec fn view(&self) -> FindingModel {
        FindingModel {
            construct: self.construct@,
            breaks: self.breaks,
            effect: self.effect@,
            suggestion: inside(self.suggestion),
        }
    }
}

pub open spec fn finding_models(v: Seq<Finding>) -> Seq<FindingModel> {
    Seq::new(v.len(), |i: int| v[i]@)
}

pub(crate) fn report(
    out: &mut Vec<Finding>,
    construct: String,
    breaks: Breaks,
    effect: &str,
    suggestion: Option<String>,
)
    ensures
        finding_models(final(out)@) == finding_models(old(out)@).push(
            FindingModel {
                construct: construct@,
                breaks,
                effect: effect@,
                suggestion: inside(suggestion),
            },
        ),
{
    let ghost was = out@;
    let finding = Finding { construct, breaks, effect: effect.to_string(), suggestion };
    let ghost model = finding@;
    out.push(finding);
    assert(finding_models(out@) == finding_models(was).push(model));
}

// ---------------------------------------------------------------------------
// Functions
// ---------------------------------------------------------------------------

/// Where the engines stand on a function, whatever it is called with.
pub struct Note {
    pub breaks: Breaks,
    pub effect: &'static str,
    pub suggestion: Option<&'static str>,
}

pub const NO_LAST: &'static str = "JavaRosa has no last(), so the rule fails";

pub const FOR_LAST: &'static str = "count() of the repeat";

pub const NO_PULLDATA: &'static str =
    "pulldata() is ODK Collect's own function, not an XForms one. Enketo does not have it, so every rule that calls it fails there";

pub const FOR_PULLDATA: &'static str =
    "instance('file')/root/item[key = …]/column, which both engines evaluate";

pub const DISTANCE_ROUNDS: &'static str =
    "Enketo rounds the answer to two decimals and JavaRosa does not, so a rule comparing a distance against a threshold can fall either side of it";

pub const FOR_DISTANCE: &'static str = "round(distance(…)) or a comparison with room to spare";

pub const AREA_DIFFERS: &'static str =
    "JavaRosa projects the shape onto a plane and Enketo uses a spherical formula, and Enketo also rounds to two decimals. Over a city block the two agree within a square metre; over a degree they differ by a tenth of a percent";

pub const FOR_AREA: &'static str = "round() the result, or compare with a margin";

pub const NO_FLOOR: &'static str = "JavaRosa has no floor()";

pub const FOR_FLOOR: &'static str = "int() for a positive number, or -int(-x) to round down";

pub const NO_CEILING: &'static str = "JavaRosa has no ceiling()";

pub const FOR_CEILING: &'static str = "-int(-x), or int(x) + 1 when x has a fraction";

pub const NO_SUBSTRING: &'static str = "JavaRosa has substr() but not substring()";

pub const FOR_SUBSTRING: &'static str =
    "substr(), remembering it counts from 0 and its end is exclusive: substring(s, 2, 3) is substr(s, 1, 4)";

pub const NOT_IN_ENKETO: &'static str =
    "Enketo does not implement it, so a web form cannot open this";

pub const BUILT_PATTERN: &'static str =
    "the pattern is built at runtime, so whether it anchors cannot be checked here — the two engines still differ on unanchored ones";

pub const UNANCHORED: &'static str =
    "JavaRosa requires the whole value to match while Enketo accepts a match anywhere in it, so the same answer passes in one and fails in the other";

pub const LOOSE_ANCHORS: &'static str =
    "the ^ and $ bind only to the first and last alternatives, so this is anchored in JavaRosa and loose in Enketo despite looking anchored";

pub const CASING: &'static str = "JavaRosa accepts any casing, Enketo only lowercase 'true'";

pub const FOR_CASING: &'static str = "'true' in lowercase";

pub const COMPARED_REPEAT: &'static str =
    "JavaRosa refuses to compare a field that repeats against a value, so the whole rule fails";

pub const ONLY_CHILD_STEPS: &'static str =
    "JavaRosa supports only child steps, so the path matches nothing";

pub const FOR_DESCENDANTS: &'static str = "the full path from the instance root";

pub const BARE_POSITION: &'static str =
    "JavaRosa matches nothing for a bare [n], so this silently reads as empty";

/// The functions that one engine lacks, or that the two compute apart.
///
/// `pulldata` is no XForms function at all: ODK Collect registers it as its
/// own handler at runtime. Both engines have `distance` and `area`, and
/// neither agrees with the other on what comes back.
pub open spec fn note_on(name: Seq<char>) -> Option<Note> {
    if name == "last"@ {
        Some(Note { breaks: Breaks::Collect, effect: NO_LAST, suggestion: Some(FOR_LAST) })
    } else if name == "pulldata"@ {
        Some(
            Note {
                breaks: Breaks::WebForms,
                effect: NO_PULLDATA,
                suggestion: Some(FOR_PULLDATA),
            },
        )
    } else if name == "distance"@ {
        Some(
            Note {
                breaks: Breaks::Differently,
                effect: DISTANCE_ROUNDS,
                suggestion: Some(FOR_DISTANCE),
            },
        )
    } else if name == "area"@ {
        Some(Note { breaks: Breaks::Differently, effect: AREA_DIFFERS, suggestion: Some(FOR_AREA) })
    } else if name == "floor"@ {
        Some(Note { breaks: Breaks::Collect, effect: NO_FLOOR, suggestion: Some(FOR_FLOOR) })
    } else if name == "ceiling"@ {
        Some(Note { breaks: Breaks::Collect, effect: NO_CEILING, suggestion: Some(FOR_CEILING) })
    } else if name == "substring"@ {
        Some(
            Note { breaks: Breaks::Collect, effect: NO_SUBSTRING, suggestion: Some(FOR_SUBSTRING) },
        )
    } else if name == "enclosed-area"@ || name == "geofence"@ || name == "extract-signed"@ || name
        == "base64-decode"@ || name == "is-selected"@ {
        Some(Note { breaks: Breaks::WebForms, effect: NOT_IN_ENKETO, suggestion: None })
    } else {
        None
    }
}

fn note(name: &str) -> (r: Option<Note>)
    ensures
        r == note_on(name@),
{
    if same(name, "last") {
        Some(Note { breaks: Breaks::Collect, effect: NO_LAST, suggestion: Some(FOR_LAST) })
    } else if same(name, "pulldata") {
        Some(
            Note {
                breaks: Breaks::WebForms,
                effect: NO_PULLDATA,
                suggestion: Some(FOR_PULLDATA),
            },
        )
    } else if same(name, "distance") {
        Some(
            Note {
                breaks: Breaks::Differently,
                effect: DISTANCE_ROUNDS,
                suggestion: Some(FOR_DISTANCE),
            },
        )
    } else if same(name, "area") {
        Some(Note { breaks: Breaks::Differently, effect: AREA_DIFFERS, suggestion: Some(FOR_AREA) })
    } else if same(name, "floor") {
        Some(Note { breaks: Breaks::Collect, effect: NO_FLOOR, suggestion: Some(FOR_FLOOR) })
    } else if same(name, "ceiling") {
        Some(Note { breaks: Breaks::Collect, effect: NO_CEILING, suggestion: Some(FOR_CEILING) })
    } else if same(name, "substring") {
        Some(
            Note { breaks: Breaks::Collect, effect: NO_SUBSTRING, suggestion: Some(FOR_SUBSTRING) },
        )
    } else if same(name, "enclosed-area") || same(name, "geofence") || same(
        name,
        "extract-signed",
    ) || same(name, "base64-decode") || same(name, "is-selected") {
        Some(Note { breaks: Breaks::WebForms, effect: NOT_IN_ENKETO, suggestion: None })
    } else {
        None
    }
}

/// Whether a bar stands in a pattern, from `i` on, outside every group and
/// character class, `depth` groups being open at `i`.
///
/// It matters because alternation binds looser than anchoring: `^a|b$` is
/// "starts with a" or "ends with b", not "is exactly a or b".
pub open spec fn bar_outside(p: Seq<char>, i: int, depth: nat, in_class: bool) -> bool
    decreases p.len() - i + 1,
{
    if i < 0 || i >= p.len() {
        false
    } else if p[i] == '\\' {
        bar_outside(p, i + 2, depth, in_class)
    } else if in_class {
        bar_outside(p, i + 1, depth, p[i] != ']')
    } else if p[i] == '[' {
        bar_outside(p, i + 1, depth, true)
    } else if p[i] == '(' {
        bar_outside(p, i + 1, depth + 1, false)
    } else if p[i] == ')' {
        bar_outside(
            p,
            i + 1,
            if depth == 0 {
                0
            } else {
                (depth - 1) as nat
            },
            false,
        )
    } else if p[i] == '|' && depth == 0 {
        true
    } else {
        bar_outside(p, i + 1, depth, false)
    }
}

/// Whether a pattern starts and ends at an anchor.
pub open spec fn anchored(p: Seq<char>) -> bool {
    p.len() > 0 && p[0] == '^' && p.last() == '$'
}

/// The pattern that matches the whole value in both engines: grouped, so the
/// anchors keep holding if the pattern later grows a bar.
pub open spec fn anchored_whole(p: Seq<char>) -> Seq<char> {
    "^(?:"@ + p + ")$"@
}

/// What is wrong with a pattern that a form writes out.
pub open spec fn pattern_findings(p: Seq<char>) -> Seq<FindingModel> {
    if !anchored(p) {
        seq![
            FindingModel {
                construct: "regex() with the unanchored pattern "@ + quoted(p),
                breaks: Breaks::Differently,
                effect: UNANCHORED@,
                suggestion: Some("'"@ + anchored_whole(p) + "'"@),
            },
        ]
    } else if bar_outside(p, 0, 0, false) {
        seq![
            FindingModel {
                construct: "regex() with alternation outside the anchors: "@ + quoted(p),
                breaks: Breaks::Differently,
                effect: LOOSE_ANCHORS@,
                suggestion: Some("'"@ + anchored_whole(p) + "'"@),
            },
        ]
    } else {
        Seq::empty()
    }
}

/// Whether a pattern, from `i` on, closes a group that it did not open,
/// `depth` groups being open at `i`. No engine takes such a pattern.
pub open spec fn closes_unopened(p: Seq<char>, i: int, depth: nat, in_class: bool) -> bool
    decreases p.len() - i + 1,
{
    if i < 0 || i >= p.len() {
        false
    } else if p[i] == '\\' {
        closes_unopened(p, i + 2, depth, in_class)
    } else if in_class {
        closes_unopened(p, i + 1, depth, p[i] != ']')
    } else if p[i] == '[' {
        closes_unopened(p, i + 1, depth, true)
    } else if p[i] == '(' {
        closes_unopened(p, i + 1, depth + 1, false)
    } else if p[i] == ')' {
        depth == 0 || closes_unopened(p, i + 1, (depth - 1) as nat, false)
    } else {
        closes_unopened(p, i + 1, depth, false)
    }
}

proof fn lemma_grouped(p: Seq<char>, i: int, depth: nat, in_class: bool)
    requires
        0 <= i <= p.len() + 1,
        !closes_unopened(p, i, depth, in_class),
    ensures
        !bar_outside(anchored_whole(p), i + 4, depth + 1, in_class),
    decreases p.len() - i + 1,
{
    let q = anchored_whole(p);
    reveal_strlit("^(?:");
    reveal_strlit(")$");
    assert(q.len() == p.len() + 6);
    if i >= p.len() {
        assert(q[p.len() as int + 4] == ')' && q[p.len() as int + 5] == '$');
        reveal_with_fuel(bar_outside, 4);
    } else {
        assert(q[i + 4] == p[i]);
        if p[i] == '\\' {
            lemma_grouped(p, i + 2, depth, in_class);
        } else if in_class {
            lemma_grouped(p, i + 1, depth, p[i] != ']');
        } else if p[i] == '[' {
            lemma_grouped(p, i + 1, depth, true);
        } else if p[i] == '(' {
            lemma_grouped(p, i + 1, depth + 1, false);
        } else if p[i] == ')' {
            lemma_grouped(p, i + 1, (depth - 1) as nat, false);
        } else {
            lemma_grouped(p, i + 1, depth, false);
        }
    }
}

/// The rewrite that is suggested for a pattern is one that travels: nothing
/// is found in it, whatever bars the pattern has.
pub proof fn law_suggested_pattern_travels(p: Seq<char>)
    requires
        !closes_unopened(p, 0, 0, false),
    ensures
        pattern_findings(anchored_whole(p)) == Seq::<FindingModel>::empty(),
{
    let q = anchored_whole(p);
    reveal_strlit("^(?:");
    reveal_strlit(")$");
    assert(q.len() == p.len() + 6);
    assert(q[0] == '^' && q[1] == '(' && q[2] == '?' && q[3] == ':' && q.last() == '$');
    lemma_grouped(p, 0, 0, false);
    reveal_with_fuel(bar_outside, 5);
}

/// "true" in any casing.
pub open spec fn true_in_any_case(s: Seq<char>) -> bool {
    s.len() == 4 && (s[0] == 't' || s[0] == 'T') && (s[1] == 'r' || s[1] == 'R') && (s[2] == 'u'
        || s[2] == 'U') && (s[3] == 'e' || s[3] == 'E')
}

/// What is wrong with a call, the arguments themselves aside.
pub open spec fn call_findings(name: Seq<char>, args: Seq<ExprModel>) -> Seq<FindingModel> {
    match note_on(name) {
        Some(note) => seq![
            FindingModel {
                construct: name + "()"@,
                breaks: note.breaks,
                effect: note.effect@,
                suggestion: inside(note.suggestion),
            },
        ],
        None => if name == "regex"@ {
            if args.len() > 1 && args[1] is Literal {
                pattern_findings(args[1]->Literal_0)
            } else {
                seq![
                    FindingModel {
                        construct: "regex() with a pattern that is not written out"@,
                        breaks: Breaks::Differently,
                        effect: BUILT_PATTERN@,
                        suggestion: None,
                    },
                ]
            }
        } else if name == "boolean-from-string"@ && args.len() > 0 && args[0] is Literal
            && true_in_any_case(args[0]->Literal_0) && args[0]->Literal_0 != "true"@ {
            seq![
                FindingModel {
                    construct: "boolean-from-string("@ + quoted(args[0]->Literal_0) + ")"@,
                    breaks: Breaks::Differently,
                    effect: CASING@,
                    suggestion: Some(FOR_CASING@),
                },
            ]
        } else {
            Seq::empty()
        },
    }
}

/// Is there a `|` at the top level of this pattern, outside every group and
/// character class?
pub fn has_top_level_alternation(pattern: &str) -> (r: bool)
    ensures
        r == bar_outside(pattern@, 0, 0, false),
{
    let p = chars_of(pattern);
    let n = p.len();
    let mut i: usize = 0;
    let mut depth: usize = 0;
    let mut in_class = false;
    while i < n
        invariant
            n == p@.len(),
            p@ == pattern@,
            i <= n,
            depth <= i,
            bar_outside(p@, 0, 0, false) == bar_outside(p@, i as int, depth as nat, in_class),
        decreases n - i,
    {
        let c = p[i];
        if c == '\\' {
            if i + 1 == n {
                assert(!bar_outside(p@, i + 2, depth as nat, in_class));
                return false;
            }
            i = i + 1;
        } else if in_class {
            in_class = c != ']';
        } else if c == '[' {
            in_class = true;
        } else if c == '(' {
            depth = depth + 1;
        } else if c == ')' {
            if depth > 0 {
                depth = depth - 1;
            }
        } else if c == '|' && depth == 0 {
            return true;
        }
        i = i + 1;
    }
    false
}

fn check_pattern(pattern: &str, out: &mut Vec<Finding>)
    ensures
        finding_models(final(out)@) == finding_models(old(out)@) + pattern_findings(pattern@),
{
    let ghost before = finding_models(out@);
    let p = chars_of(pattern);
    let fix = cat3("'", cat3("^(?:", pattern, ")$").as_str(), "'");
    if !(p.len() > 0 && p[0] == '^' && p[p.len() - 1] == '$') {
        report(
            out,
            cat2("regex() with the unanchored pattern ", quote(pattern).as_str()),
            Breaks::Differently,
            UNANCHORED,
            Some(fix),
        );
    } else if has_top_level_alternation(pattern) {
        // `^a|b$` reads as anchored and is not: the anchors bind to the
        // branches either side of the bar, so the middle alternatives float
        // free.
        report(
            out,
            cat2("regex() with alternation outside the anchors: ", quote(pattern).as_str()),
            Breaks::Differently,
            LOOSE_ANCHORS,
            Some(fix),
        );
    }
    assert(finding_models(out@) == before + pattern_findings(pattern@));
}

pub(crate) fn check_function(name: &str, args: &Vec<Expr>, out: &mut Vec<Finding>)
    ensures
        finding_models(final(out)@) == finding_models(old(out)@) + call_findings(
            name@,
            exprs_model(*args),
        ),
{
    let ghost before = finding_models(out@);
    let ghost model = exprs_model(*args);
    proof {
        lemma_models(*args);
    }
    if let Some(n) = note(name) {
        let suggestion = match n.suggestion {
            Some(s) => Some(s.to_string()),
            None => None,
        };
        report(out, cat2(name, "()"), n.breaks, n.effect, suggestion);
    } else if same(name, "regex") {
        // Runs in both and means different things: the pattern is anchored
        // on the tablet and not in the browser.
        if args.len() > 1 {
            assert(model[1] == args@[1]@);
            if let Expr::Literal(pattern) = &args[1] {
                check_pattern(pattern.as_str(), out);
                return;
            }
        }
        // A pattern assembled from an answer cannot be read here. Saying so
        // beats saying nothing.
        report(
            out,
            "regex() with a pattern that is not written out".to_string(),
            Breaks::Differently,
            BUILT_PATTERN,
            None,
        );
    } else if same(name, "boolean-from-string") && args.len() > 0 {
        assert(model[0] == args@[0]@);
        if let Expr::Literal(value) = &args[0] {
            let v = chars_of(value.as_str());
            if v.len() == 4 && (v[0] == 't' || v[0] == 'T') && (v[1] == 'r' || v[1] == 'R') && (v[2]
                == 'u' || v[2] == 'U') && (v[3] == 'e' || v[3] == 'E') && !same(
                value.as_str(),
                "true",
            ) {
                report(
                    out,
                    cat3("boolean-from-string(", quote(value.as_str()).as_str(), ")"),
                    Breaks::Differently,
                    CASING,
                    Some(FOR_CASING.to_string()),
                );
            }
        }
    }
    assert(finding_models(out@) == before + call_findings(name@, model));
}

// ---------------------------------------------------------------------------
// Paths
// ---------------------------------------------------------------------------

/// A step to the children of a name, all of them.
pub open spec fn is_plain(s: StepModel) -> bool {
    s.axis == Axis::Child && s.test is Named && s.predicates.len() == 0
}

/// The absolute path that an expression names, when it names exactly one.
pub open spec fn absolute_path(e: ExprModel) -> Option<Seq<char>> {
    match e {
        ExprModel::Path { absolute, steps } => if absolute && steps.len() > 0 && (forall|i: int|
            0 <= i < steps.len() ==> is_plain(#[trigger] steps[i])) {
            Some("/"@ + join(Seq::new(steps.len(), |i: int| steps[i].test->Named_0), "/"@))
        } else {
            None
        },
        _ => None,
    }
}

/// Whether a path names what repeats, or something inside it.
pub open spec fn crosses(path: Seq<char>, repeat: Seq<char>) -> bool {
    begins_with(path, trim_end_of(repeat, '/') + "/"@) || path == trim_end_of(repeat, '/')
}

/// Whether a path passes through a repeat, and so possibly names many nodes.
pub open spec fn repeats_in(path: Seq<char>, repeats: Seq<Seq<char>>) -> bool {
    exists|i: int| 0 <= i < repeats.len() && crosses(path, #[trigger] repeats[i])
}

/// What is wrong with one side of a comparison.
pub open spec fn side_findings(e: ExprModel, repeats: Seq<Seq<char>>) -> Seq<FindingModel> {
    match absolute_path(e) {
        Some(path) => if repeats_in(path, repeats) {
            seq![
                FindingModel {
                    construct: "comparing "@ + path + ", which repeats"@,
                    breaks: Breaks::Collect,
                    effect: COMPARED_REPEAT@,
                    suggestion: Some(
                        "count("@ + path
                            + "[. = …]) > 0, or indexed-repeat() to name one instance"@,
                    ),
                },
            ]
        } else {
            Seq::empty()
        },
        None => Seq::empty(),
    }
}

pub open spec fn compares(op: BinaryOp) -> bool {
    op is Equal || op is NotEqual || op is Less || op is LessEqual || op is Greater
        || op is GreaterEqual
}

/// What is wrong with a step, its predicates aside.
pub open spec fn step_findings(s: StepModel) -> Seq<FindingModel> {
    if s.axis == Axis::DescendantOrSelf && s.test is Any {
        seq![
            FindingModel {
                construct: "the // shorthand"@,
                breaks: Breaks::Collect,
                effect: ONLY_CHILD_STEPS@,
                suggestion: Some(FOR_DESCENDANTS@),
            },
        ]
    } else {
        Seq::empty()
    }
}

/// What is wrong with a predicate that is a bare number: XPath's shorthand
/// for position(), and the one JavaRosa does not implement.
pub open spec fn position_findings(e: ExprModel) -> Seq<FindingModel> {
    match e {
        ExprModel::Number(n) => seq![
            FindingModel {
                construct: "the positional predicate ["@ + number_text(n) + "]"@,
                breaks: Breaks::Collect,
                effect: BARE_POSITION@,
                suggestion: Some("[position() = "@ + number_text(n) + "]"@),
            },
        ],
        _ => Seq::empty(),
    }
}

/// What will not travel in an expression.
pub open spec fn inspected(e: ExprModel, repeats: Seq<Seq<char>>) -> Seq<FindingModel>
    decreases e, 0nat,
{
    match e {
        ExprModel::Path { absolute, steps } => inspected_steps(steps, 0, repeats),
        ExprModel::Filter { base, predicates, steps } => inspected(*base, repeats) + inspected_all(
            predicates,
            0,
            repeats,
        ) + inspected_steps(steps, 0, repeats),
        ExprModel::Function { name, args } => call_findings(name, args) + inspected_all(
            args,
            0,
            repeats,
        ),
        ExprModel::Binary { op, left, right } => (if compares(op) {
            side_findings(*left, repeats) + side_findings(*right, repeats)
        } else {
            Seq::empty()
        }) + inspected(*left, repeats) + inspected(*right, repeats),
        ExprModel::Union(left, right) => inspected(*left, repeats) + inspected(*right, repeats),
        ExprModel::Negate(inner) => inspected(*inner, repeats),
        _ => Seq::empty(),
    }
}

pub open spec fn inspected_all(s: Seq<ExprModel>, k: int, repeats: Seq<Seq<char>>) -> Seq<
    FindingModel,
>
    decreases s, s.len() - k,
{
    if k < 0 || k >= s.len() {
        Seq::empty()
    } else {
        inspected(s[k], repeats) + inspected_all(s, k + 1, repeats)
    }
}

/// What will not travel in the predicates of a step.
pub open spec fn inspected_predicates(s: Seq<ExprModel>, k: int, repeats: Seq<Seq<char>>) -> Seq<
    FindingModel,
>
    decreases s, s.len() - k,
{
    if k < 0 || k >= s.len() {
        Seq::empty()
    } else {
        position_findings(s[k]) + inspected(s[k], repeats) + inspected_predicates(s, k + 1, repeats)
    }
}

pub open spec fn inspected_steps(s: Seq<StepModel>, k: int, repeats: Seq<Seq<char>>) -> Seq<
    FindingModel,
>
    decreases s, s.len() - k,
{
    if k < 0 || k >= s.len() {
        Seq::empty()
    } else {
        step_findings(s[k]) + inspected_predicates(s[k].predicates, 0, repeats) + inspected_steps(
            s,
            k + 1,
            repeats,
        )
    }
}

/// The absolute path an expression names, when it names exactly one.
fn absolute_path_of(expr: &Expr) -> (r: Option<String>)
    ensures
        inside(r) == absolute_path(expr@),
{
    if let Expr::Path { absolute, steps } = expr {
        let ghost model = steps_model(*steps);
        proof {
            lemma_step_models(*steps);
        }
        if !*absolute || steps.len() == 0 {
            return None;
        }
        let mut parts: Vec<String> = Vec::new();
        let n = steps.len();
        for k in 0..n
            invariant
                n == steps@.len(),
                n > 0,
                model == steps_model(*steps),
                model == step_models(steps@),
                *expr == (Expr::Path { absolute: *absolute, steps: *steps }),
                *absolute,
                parts@.len() == k,
                forall|i: int| 0 <= i < k ==> is_plain(#[trigger] model[i]),
                forall|i: int| 0 <= i < k ==> (#[trigger] parts@[i])@ == model[i].test->Named_0,
        {
            let step = &steps[k];
            assert(model[k as int] == step@);
            if step.axis != Axis::Child || step.predicates.len() != 0 {
                proof {
                    lemma_models(step.predicates);
                    assert(!is_plain(model[k as int]));
                }
                return None;
            }
            match &step.test {
                NameTest::Named(name) => {
                    proof {
                        lemma_models(step.predicates);
                    }
                    parts.push(name.clone());
                },
                NameTest::Any => {
                    assert(!is_plain(model[k as int]));
                    return None;
                },
            }
        }
        assert(texts(parts@) == Seq::new(model.len(), |i: int| model[i].test->Named_0));
        Some(cat2("/", joined(&parts, "/").as_str()))
    } else {
        None
    }
}

/// Does this path pass through a repeat, and so possibly name many nodes?
fn crosses_repeat(path: &str, repeats: &Vec<String>) -> (r: bool)
    ensures
        r == repeats_in(path@, texts(repeats@)),
{
    let n = repeats.len();
    for i in 0..n
        invariant
            n == repeats@.len(),
            forall|j: int| 0 <= j < i ==> !crosses(path@, #[trigger] texts(repeats@)[j]),
    {
        let v = chars_of(repeats[i].as_str());
        let t = trimmed_end_of(&v, '/');
        let repeat = string_of(&t);
        assert(texts(repeats@)[i as int] == v@);
        if starts(path, cat2(repeat.as_str(), "/").as_str()) || same(path, repeat.as_str()) {
            return true;
        }
    }
    false
}

fn inspect_side(side: &Expr, repeats: &Vec<String>, out: &mut Vec<Finding>)
    ensures
        finding_models(final(out)@) == finding_models(old(out)@) + side_findings(
            side@,
            texts(repeats@),
        ),
{
    let ghost before = finding_models(out@);
    if let Some(path) = absolute_path_of(side) {
        if crosses_repeat(path.as_str(), repeats) {
            report(
                out,
                cat3("comparing ", path.as_str(), ", which repeats"),
                Breaks::Collect,
                COMPARED_REPEAT,
                Some(
                    cat3(
                        "count(",
                        path.as_str(),
                        "[. = …]) > 0, or indexed-repeat() to name one instance",
                    ),
                ),
            );
        }
    }
    assert(finding_models(out@) == before + side_findings(side@, texts(repeats@)));
}

pub(crate) fn inspect(expr: &Expr, repeats: &Vec<String>, out: &mut Vec<Finding>)
    ensures
        finding_models(final(out)@) == finding_models(old(out)@) + inspected(
            expr@,
            texts(repeats@),
        ),
    decreases expr, 0nat,
{
    let ghost before = finding_models(out@);
    let ghost rs = texts(repeats@);
    match expr {
        Expr::Path { steps, .. } => inspect_steps(steps, repeats, out),
        Expr::Filter { base, predicates, steps } => {
            inspect(base, repeats, out);
            inspect_all(predicates, repeats, out);
            inspect_steps(steps, repeats, out);
            assert(finding_models(out@) == before + (inspected(base@, rs) + inspected_all(
                exprs_model(*predicates),
                0,
                rs,
            ) + inspected_steps(steps_model(*steps), 0, rs)));
        },
        Expr::Function { name, args } => {
            check_function(name.as_str(), args, out);
            inspect_all(args, repeats, out);
            assert(finding_models(out@) == before + (call_findings(name@, exprs_model(*args))
                + inspected_all(exprs_model(*args), 0, rs)));
        },
        Expr::Binary { op, left, right } => {
            let comparison = match op {
                BinaryOp::Equal => true,
                BinaryOp::NotEqual => true,
                BinaryOp::Less => true,
                BinaryOp::LessEqual => true,
                BinaryOp::Greater => true,
                BinaryOp::GreaterEqual => true,
                _ => false,
            };
            let ghost sides = if compares(*op) {
                side_findings(left@, rs) + side_findings(right@, rs)
            } else {
                Seq::<FindingModel>::empty()
            };
            if comparison {
                inspect_side(left, repeats, out);
                inspect_side(right, repeats, out);
            }
            assert(finding_models(out@) == before + sides);
            inspect(left, repeats, out);
            inspect(right, repeats, out);
            assert(finding_models(out@) == before + (sides + inspected(left@, rs) + inspected(
                right@,
                rs,
            )));
        },
        Expr::Union(left, right) => {
            inspect(left, repeats, out);
            inspect(right, repeats, out);
            assert(finding_models(out@) == before + (inspected(left@, rs) + inspected(right@, rs)));
        },
        Expr::Negate(inner) => inspect(inner, repeats, out),
        Expr::Number(_) => {
            assert(before + Seq::<FindingModel>::empty() == before);
        },
        Expr::Literal(_) => {
            assert(before + Seq::<FindingModel>::empty() == before);
        },
        Expr::Variable(_) => {
            assert(before + Seq::<FindingModel>::empty() == before);
        },
    }
}

fn inspect_all(exprs: &Vec<Expr>, repeats: &Vec<String>, out: &mut Vec<Finding>)
    ensures
        finding_models(final(out)@) == finding_models(old(out)@) + inspected_all(
            exprs_model(*exprs),
            0,
            texts(repeats@),
        ),
    decreases exprs, 1nat,
{
    let ghost rs = texts(repeats@);
    let ghost model = exprs_model(*exprs);
    let ghost all = finding_models(out@) + inspected_all(model, 0, rs);
    proof {
        lemma_models(*exprs);
    }
    let n = exprs.len();
    for k in 0..n
        invariant
            n == exprs@.len(),
            rs == texts(repeats@),
            model == exprs_model(*exprs),
            model == expr_models(exprs@),
            all == finding_models(out@) + inspected_all(model, k as int, rs),
    {
        assert(decreases_to!(exprs => exprs@[k as int]));
        let ghost was = finding_models(out@);
        inspect(&exprs[k], repeats, out);
        assert(model[k as int] == exprs@[k as int]@);
        assert(was + (inspected(model[k as int], rs) + inspected_all(model, k + 1, rs))
            == finding_models(out@) + inspected_all(model, k + 1, rs));
    }
    assert(finding_models(out@) + Seq::<FindingModel>::empty() == finding_models(out@));
}

fn inspect_predicates(exprs: &Vec<Expr>, repeats: &Vec<String>, out: &mut Vec<Finding>)
    ensures
        finding_models(final(out)@) == finding_models(old(out)@) + inspected_predicates(
            exprs_model(*exprs),
            0,
            texts(repeats@),
        ),
    decreases exprs, 1nat,
{
    let ghost rs = texts(repeats@);
    let ghost model = exprs_model(*exprs);
    let ghost all = finding_models(out@) + inspected_predicates(model, 0, rs);
    proof {
        lemma_models(*exprs);
    }
    let n = exprs.len();
    for k in 0..n
        invariant
            n == exprs@.len(),
            rs == texts(repeats@),
            model == exprs_model(*exprs),
            model == expr_models(exprs@),
            all == finding_models(out@) + inspected_predicates(model, k as int, rs),
    {
        assert(decreases_to!(exprs => exprs@[k as int]));
        let ghost was = finding_models(out@);
        let e = &exprs[k];
        assert(model[k as int] == e@);
        if let Expr::Number(n) = e {
            let number = format_number(*n);
            report(
                out,
                cat3("the positional predicate [", number.as_str(), "]"),
                Breaks::Collect,
                BARE_POSITION,
                Some(cat3("[position() = ", number.as_str(), "]")),
            );
        }
        assert(finding_models(out@) == was + position_findings(model[k as int]));
        inspect(e, repeats, out);
        assert(was + (position_findings(model[k as int]) + inspected(model[k as int], rs)
            + inspected_predicates(model, k + 1, rs)) == finding_models(out@)
            + inspected_predicates(model, k + 1, rs));
    }
    assert(finding_models(out@) + Seq::<FindingModel>::empty() == finding_models(out@));
}

fn inspect_steps(steps: &Vec<Step>, repeats: &Vec<String>, out: &mut Vec<Finding>)
    ensures
        finding_models(final(out)@) == finding_models(old(out)@) + inspected_steps(
            steps_model(*steps),
            0,
            texts(repeats@),
        ),
    decreases steps, 1nat,
{
    let ghost rs = texts(repeats@);
    let ghost model = steps_model(*steps);
    let ghost all = finding_models(out@) + inspected_steps(model, 0, rs);
    proof {
        lemma_step_models(*steps);
    }
    let n = steps.len();
    for k in 0..n
        invariant
            n == steps@.len(),
            rs == texts(repeats@),
            model == steps_model(*steps),
            model == step_models(steps@),
            all == finding_models(out@) + inspected_steps(model, k as int, rs),
    {
        assert(decreases_to!(steps => steps@[k as int].predicates));
        let ghost was = finding_models(out@);
        let step = &steps[k];
        assert(model[k as int] == step@);
        if step.axis == Axis::DescendantOrSelf {
            if let NameTest::Any = &step.test {
                report(
                    out,
                    "the // shorthand".to_string(),
                    Breaks::Collect,
                    ONLY_CHILD_STEPS,
                    Some(FOR_DESCENDANTS.to_string()),
                );
            }
        }
        assert(finding_models(out@) == was + step_findings(model[k as int]));
        inspect_predicates(&step.predicates, repeats, out);
        assert(was + (step_findings(model[k as int]) + inspected_predicates(
            model[k as int].predicates,
            0,
            rs,
        ) + inspected_steps(model, k + 1, rs)) == finding_models(out@) + inspected_steps(
            model,
            k + 1,
            rs,
        ));
    }
    assert(finding_models(out@) + Seq::<FindingModel>::empty() == finding_models(out@));
}

} // verus!
