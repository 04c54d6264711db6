//! Whatever path an expression reads, it is held against the form.

use crate::parser::ast::{ExprModel, StepModel};
use crate::parser::parts::{is_direct_part, is_part_at, is_within, lemma_in_sum};
use crate::portability::constructs::FindingModel;
use crate::portability::shape::{
    before_first, element_paths, element_paths_below, first_name, gathered, gathered_all,
    gathered_steps, own_path, ShapeModel,
};
use crate::portability::Breaks;
use crate::rules::paths::path_text;
use crate::rules::reading::{leads_by, lemma_named_steps};
use crate::text::laws::lemma_span_is;
use crate::text::{in_class, join, lemma_span_back, span_back, trim_end_of, Class};
use crate::tree::{NodeId, Tree};
use vstd::prelude::*;

verus! {

// ---------------------------------------------------------------------------
// What is gathered
// ---------------------------------------------------------------------------

proof fn lemma_gathered_one(s: Seq<ExprModel>, k: int, i: int, from: Seq<char>, p: Seq<char>)
    requires
        0 <= k <= i < s.len(),
        gathered(s[i], from, false).contains(p),
    ensures
        gathered_all(s, k, from, false).contains(p),
    decreases i - k,
{
    lemma_in_sum(gathered(s[k], from, false), gathered_all(s, k + 1, from, false), p);
    if k < i {
        lemma_gathered_one(s, k + 1, i, from, p);
    }
}

proof fn lemma_gathered_step(
    s: Seq<StepModel>,
    k: int,
    i: int,
    j: int,
    from: Seq<char>,
    p: Seq<char>,
)
    requires
        0 <= k <= i < s.len(),
        0 <= j < s[i].predicates.len(),
        gathered(s[i].predicates[j], from, false).contains(p),
    ensures
        gathered_steps(s, k, from).contains(p),
    decreases i - k,
{
    lemma_in_sum(
        gathered_all(s[k].predicates, 0, from, false),
        gathered_steps(s, k + 1, from),
        p,
    );
    if k < i {
        lemma_gathered_step(s, k + 1, i, j, from, p);
    } else {
        lemma_gathered_one(s[k].predicates, 0, j, from, p);
    }
}

/// What is gathered inside a predicate is gathered outside one too.
proof fn lemma_gathered_more(e: ExprModel, from: Seq<char>, p: Seq<char>)
    requires
        gathered(e, from, false).contains(p),
    ensures
        gathered(e, from, true).contains(p),
    decreases e, 0nat,
{
    match e {
        ExprModel::Negate(inner) => lemma_gathered_more(*inner, from, p),
        ExprModel::Union(left, right) => {
            lemma_in_sum(gathered(*left, from, false), gathered(*right, from, false), p);
            lemma_in_sum(gathered(*left, from, true), gathered(*right, from, true), p);
            if gathered(*left, from, false).contains(p) {
                lemma_gathered_more(*left, from, p);
            } else {
                lemma_gathered_more(*right, from, p);
            }
        },
        ExprModel::Binary { op, left, right } => {
            lemma_in_sum(gathered(*left, from, false), gathered(*right, from, false), p);
            lemma_in_sum(gathered(*left, from, true), gathered(*right, from, true), p);
            if gathered(*left, from, false).contains(p) {
                lemma_gathered_more(*left, from, p);
            } else {
                lemma_gathered_more(*right, from, p);
            }
        },
        ExprModel::Path { absolute, steps } => {
            let rest = gathered_steps(steps, 0, from);
            lemma_in_sum(own_path(absolute, steps, from, false), rest, p);
            lemma_in_sum(own_path(absolute, steps, from, true), rest, p);
        },
        ExprModel::Function { name, args } => lemma_gathered_all_more(args, 0, from, p),
        _ => {},
    }
}

proof fn lemma_gathered_all_more(s: Seq<ExprModel>, k: int, from: Seq<char>, p: Seq<char>)
    requires
        0 <= k <= s.len(),
        gathered_all(s, k, from, false).contains(p),
    ensures
        gathered_all(s, k, from, true).contains(p),
    decreases s, s.len() - k,
{
    if k < s.len() {
        assert(decreases_to!(s => s[k]));
        lemma_in_sum(gathered(s[k], from, false), gathered_all(s, k + 1, from, false), p);
        lemma_in_sum(gathered(s[k], from, true), gathered_all(s, k + 1, from, true), p);
        if gathered(s[k], from, false).contains(p) {
            lemma_gathered_more(s[k], from, p);
        } else {
            lemma_gathered_all_more(s, k + 1, from, p);
        }
    }
}

proof fn lemma_gathered_part(x: ExprModel, e: ExprModel, from: Seq<char>, p: Seq<char>)
    requires
        is_direct_part(x, e),
        gathered(x, from, false).contains(p),
    ensures
        gathered(e, from, false).contains(p),
{
    match e {
        ExprModel::Union(left, right) => {
            lemma_in_sum(gathered(*left, from, false), gathered(*right, from, false), p);
        },
        ExprModel::Binary { op, left, right } => {
            lemma_in_sum(gathered(*left, from, false), gathered(*right, from, false), p);
        },
        ExprModel::Function { name, args } => {
            let i = choose|i: int| 0 <= i < args.len() && args[i] == x;
            lemma_gathered_one(args, 0, i, from, p);
        },
        ExprModel::Path { absolute, steps } => {
            let (k, j) = choose|k: int, j: int|
                0 <= k < steps.len() && 0 <= j < steps[k].predicates.len()
                    && #[trigger] steps[k].predicates[j] == x;
            lemma_gathered_step(steps, 0, k, j, from, p);
            lemma_in_sum(
                own_path(absolute, steps, from, false),
                gathered_steps(steps, 0, from),
                p,
            );
        },
        ExprModel::Filter { base, predicates, steps } => {
            let a = gathered(*base, from, false);
            let b = gathered_all(predicates, 0, from, false);
            if predicates.contains(x) {
                let i = choose|i: int| 0 <= i < predicates.len() && predicates[i] == x;
                lemma_gathered_one(predicates, 0, i, from, p);
            } else if x != *base {
                let (k, j) = choose|k: int, j: int|
                    0 <= k < steps.len() && 0 <= j < steps[k].predicates.len()
                        && #[trigger] steps[k].predicates[j] == x;
                lemma_gathered_step(steps, 0, k, j, from, p);
            }
            lemma_in_sum(a, b, p);
            lemma_in_sum(a + b, gathered_steps(steps, 0, from), p);
        },
        _ => {},
    }
}

proof fn lemma_gathered_deep(
    x: ExprModel,
    e: ExprModel,
    depth: nat,
    from: Seq<char>,
    p: Seq<char>,
)
    requires
        is_part_at(x, e, depth),
        gathered(x, from, false).contains(p),
    ensures
        gathered(e, from, false).contains(p),
    decreases depth,
{
    if depth > 0 {
        let y = choose|y: ExprModel| #[trigger]
            is_direct_part(y, e) && is_part_at(x, y, (depth - 1) as nat);
        lemma_gathered_deep(x, y, (depth - 1) as nat, from, p);
        lemma_gathered_part(y, e, from, p);
    }
}

/// An absolute path anywhere in an expression is held against the form,
/// inside predicates as elsewhere.
pub proof fn law_absolute_paths_are_gathered(
    e: ExprModel,
    steps: Seq<StepModel>,
    names: Seq<Seq<char>>,
    from: Seq<char>,
)
    requires
        is_within(ExprModel::Path { absolute: true, steps }, e),
        leads_by(steps, 0, names),
        names.len() > 0,
    ensures
        gathered(e, from, true).contains("/"@ + join(names, "/"@)),
{
    let x = ExprModel::Path { absolute: true, steps };
    let p = "/"@ + join(names, "/"@);
    lemma_named_steps(Seq::empty(), steps, 0, names, 0);
    assert(Seq::<Seq<char>>::empty() + names.skip(0) =~= names);
    assert(path_text(true, steps, from) == Some(p));
    let own = own_path(true, steps, from, false);
    assert(own =~= seq![p]);
    assert(own[0] == p);
    lemma_in_sum(own, gathered_steps(steps, 0, from), p);
    let depth = choose|depth: nat| is_part_at(x, e, depth);
    lemma_gathered_deep(x, e, depth, from, p);
    lemma_gathered_more(e, from, p);
}

// ---------------------------------------------------------------------------
// What is missing
// ---------------------------------------------------------------------------

/// Whether something is found to read a path that the form has no node for.
pub open spec fn is_missed(found: Seq<FindingModel>, path: Seq<char>) -> bool {
    exists|i: int|
        0 <= i < found.len() && (#[trigger] found[i]).construct == path
            + ", which this form's instance has no node for"@ && found[i].breaks
            == Breaks::Everywhere
}

proof fn lemma_missing(shape: ShapeModel, wanted: Seq<Seq<char>>, k: int, i: int)
    requires
        0 <= k <= i < wanted.len(),
        !wanted.take(i).contains(wanted[i]),
        !shape.holds(wanted[i]),
        !shape.tables.contains(first_name(wanted[i])),
    ensures
        is_missed(shape.missing(wanted, k), wanted[i]),
    decreases i - k,
{
    let r = shape.missing(wanted, k);
    if k == i {
        assert(r[0].construct == wanted[i] + ", which this form's instance has no node for"@);
    } else {
        lemma_missing(shape, wanted, k + 1, i);
        let rest = shape.missing(wanted, k + 1);
        let j = choose|j: int|
            0 <= j < rest.len() && (#[trigger] rest[j]).construct == wanted[i]
                + ", which this form's instance has no node for"@ && rest[j].breaks
                == Breaks::Everywhere;
        if r.len() == rest.len() {
            assert(r == rest);
        } else {
            assert(r[j + 1] == rest[j]);
        }
    }
}

proof fn lemma_first_time(s: Seq<Seq<char>>, p: Seq<char>) -> (i: int)
    requires
        s.contains(p),
    ensures
        0 <= i < s.len(),
        s[i] == p,
        !s.take(i).contains(p),
    decreases s.len(),
{
    let d = s.drop_last();
    if d.contains(p) {
        let i = lemma_first_time(d, p);
        assert(d.take(i) =~= s.take(i));
        i
    } else {
        assert(s.take(s.len() - 1) =~= d);
        let k = choose|k: int| 0 <= k < s.len() && s[k] == p;
        if k < s.len() - 1 {
            assert(d[k] == p);
        }
        s.len() - 1
    }
}

/// A path that an expression reads from the root, and that the form has no
/// node for, is found: it breaks everywhere. A path into a table is not held
/// against the form's own instance.
pub proof fn law_missing_paths_are_found(
    shape: ShapeModel,
    e: ExprModel,
    steps: Seq<StepModel>,
    names: Seq<Seq<char>>,
    from: Seq<char>,
)
    requires
        shape.paths.len() > 0,
        is_within(ExprModel::Path { absolute: true, steps }, e),
        leads_by(steps, 0, names),
        names.len() > 0,
        !shape.holds("/"@ + join(names, "/"@)),
        !shape.tables.contains(first_name("/"@ + join(names, "/"@))),
    ensures
        is_missed(shape.path_findings(e, from), "/"@ + join(names, "/"@)),
{
    let p = "/"@ + join(names, "/"@);
    law_absolute_paths_are_gathered(e, steps, names, from);
    let wanted = gathered(e, from, true);
    let i = lemma_first_time(wanted, p);
    lemma_missing(shape, wanted, 0, i);
}

/// What is found of the paths of an expression is so: the form has no node
/// there.
pub proof fn law_only_missing_paths_are_found(shape: ShapeModel, wanted: Seq<Seq<char>>, k: int)
    requires
        0 <= k <= wanted.len(),
    ensures
        forall|i: int|
            0 <= i < shape.missing(wanted, k).len() ==> exists|j: int|
                k <= j < wanted.len() && !shape.holds(#[trigger] wanted[j]) && (
                #[trigger] shape.missing(wanted, k)[i]).construct == wanted[j]
                    + ", which this form's instance has no node for"@,
    decreases wanted.len() - k,
{
    if k < wanted.len() {
        law_only_missing_paths_are_found(shape, wanted, k + 1);
        let r = shape.missing(wanted, k);
        let rest = shape.missing(wanted, k + 1);
        assert forall|i: int| 0 <= i < r.len() implies exists|j: int|
            k <= j < wanted.len() && !shape.holds(#[trigger] wanted[j]) && (
            #[trigger] r[i]).construct == wanted[j]
                + ", which this form's instance has no node for"@ by {
            if r.len() == rest.len() {
                assert(r[i] == rest[i]);
            } else if i > 0 {
                assert(r[i] == rest[i - 1]);
            } else {
                assert(!shape.holds(wanted[k]));
            }
        }
    }
}

// ---------------------------------------------------------------------------
// What a form holds
// ---------------------------------------------------------------------------

/// An element of the instance has its path among those of the form, and so
/// has everything below it, under that path; and there are no others.
pub proof fn law_element_paths(t: Tree, n: NodeId, prefix: Seq<char>, p: Seq<char>)
    requires
        t.wf(),
        t.has(n),
    ensures
        element_paths(t, n, prefix).contains(p) <==> p == prefix + "/"@ + t.name(n) || exists|
            i: int,
        |
            0 <= i < t.children(n).len() && element_paths(
                t,
                #[trigger] t.children(n)[i],
                prefix + "/"@ + t.name(n),
            ).contains(p),
{
    let here = prefix + "/"@ + t.name(n);
    lemma_in_sum(seq![here], element_paths_below(t, n, 0, here), p);
    assert(seq![here][0] == here);
    lemma_paths_below(t, n, 0, here, p);
}

proof fn lemma_paths_below(t: Tree, n: NodeId, i: int, here: Seq<char>, p: Seq<char>)
    requires
        t.wf(),
        t.has(n),
        0 <= i <= t.children(n).len(),
    ensures
        element_paths_below(t, n, i, here).contains(p) <==> exists|j: int|
            i <= j < t.children(n).len() && element_paths(
                t,
                #[trigger] t.children(n)[j],
                here,
            ).contains(p),
    decreases t.children(n).len() - i,
{
    if i < t.children(n).len() {
        lemma_paths_below(t, n, i + 1, here, p);
        lemma_in_sum(
            element_paths(t, t.children(n)[i], here),
            element_paths_below(t, n, i + 1, here),
            p,
        );
    }
}

/// A form holds a path that is one of its own, and an attribute of it.
pub proof fn law_held_paths(shape: ShapeModel, path: Seq<char>, attribute: Seq<char>)
    requires
        path.len() > 0,
        !path.contains('@'),
        path.last() != '/',
    ensures
        shape.holds(path) <==> shape.paths.contains(path),
        shape.holds(path + seq!['/', '@'] + attribute) <==> shape.paths.contains(path),
{
    let n = path.len() as int;
    assert forall|x: int| 0 <= x < n implies in_class(Class::Not('@'), #[trigger] path[x]) by {
        assert(path.contains(path[x]));
    }
    lemma_span_is(path, 0, n, Class::Not('@'));
    assert(path.take(n) =~= path);
    lemma_span_back(path, n, Class::Is('/'));
    assert(trim_end_of(path, '/') =~= path);
    let long = path + seq!['/', '@'] + attribute;
    assert forall|x: int| 0 <= x < n + 1 implies in_class(Class::Not('@'), #[trigger] long[x]) by {
        if x < n {
            assert(long[x] == path[x]);
        } else {
            assert(long[x] == '/');
        }
    }
    assert(long[n + 1] == '@');
    lemma_span_is(long, 0, n + 1, Class::Not('@'));
    let head = before_first(long, '@');
    assert(head =~= path.push('/'));
    assert(head[n] == '/');
    assert(span_back(head, n + 1, Class::Is('/')) == span_back(head, n, Class::Is('/')));
    assert(head[n - 1] == path.last());
    assert(span_back(head, n, Class::Is('/')) == n);
    assert(head.take(n) =~= path);
}

} // verus!
