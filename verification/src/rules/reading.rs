//! Whatever an expression reads, it is seen to read.

use crate::parser::ast::{Axis, ExprModel, StepModel, TestModel};
use crate::parser::parts::{
    is_direct_part, is_part_at, is_predicate_of, is_within, lemma_in_sum, lemma_within,
};
use crate::rules::binding::BindingModel;
use crate::rules::order::{depends, last_bound, law_order_respects_dependencies, ordering};
use crate::rules::paths::{path_text, read_by, read_by_all, read_by_steps, stepped_parts};
use crate::text::laws::law_split_undoes_join;
use crate::text::{join, lemma_join_first, split_on};
use vstd::prelude::*;

verus! {

// ---------------------------------------------------------------------------
// A part is read where the whole is
// ---------------------------------------------------------------------------

proof fn lemma_one_of_all(s: Seq<ExprModel>, k: int, i: int, from: Seq<char>, p: Seq<char>)
    requires
        0 <= k <= i < s.len(),
        read_by(s[i], from).contains(p),
    ensures
        read_by_all(s, k, from).contains(p),
    decreases i - k,
{
    lemma_in_sum(read_by(s[k], from), read_by_all(s, k + 1, from), p);
    if k < i {
        lemma_one_of_all(s, k + 1, i, from, p);
    }
}

proof fn lemma_in_step(s: Seq<StepModel>, k: int, i: int, j: int, from: Seq<char>, p: Seq<char>)
    requires
        0 <= k <= i < s.len(),
        0 <= j < s[i].predicates.len(),
        read_by(s[i].predicates[j], from).contains(p),
    ensures
        read_by_steps(s, k, from).contains(p),
    decreases i - k,
{
    lemma_in_sum(read_by_all(s[k].predicates, 0, from), read_by_steps(s, k + 1, from), p);
    if k < i {
        lemma_in_step(s, k + 1, i, j, from, p);
    } else {
        lemma_one_of_all(s[k].predicates, 0, j, from, p);
    }
}

proof fn lemma_in_predicate(x: ExprModel, s: Seq<StepModel>, from: Seq<char>, p: Seq<char>)
    requires
        is_predicate_of(x, s),
        read_by(x, from).contains(p),
    ensures
        read_by_steps(s, 0, from).contains(p),
{
    let (k, j) = choose|k: int, j: int|
        0 <= k < s.len() && 0 <= j < s[k].predicates.len() && #[trigger] s[k].predicates[j] == x;
    lemma_in_step(s, 0, k, j, from, p);
}

proof fn lemma_in_list(x: ExprModel, s: Seq<ExprModel>, from: Seq<char>, p: Seq<char>)
    requires
        s.contains(x),
        read_by(x, from).contains(p),
    ensures
        read_by_all(s, 0, from).contains(p),
{
    let i = choose|i: int| 0 <= i < s.len() && s[i] == x;
    lemma_one_of_all(s, 0, i, from, p);
}

proof fn lemma_direct_part_read(x: ExprModel, e: ExprModel, from: Seq<char>, p: Seq<char>)
    requires
        is_direct_part(x, e),
        read_by(x, from).contains(p),
    ensures
        read_by(e, from).contains(p),
{
    match e {
        ExprModel::Union(left, right) => {
            lemma_in_sum(read_by(*left, from), read_by(*right, from), p);
        },
        ExprModel::Binary { op, left, right } => {
            lemma_in_sum(read_by(*left, from), read_by(*right, from), p);
        },
        ExprModel::Function { name, args } => lemma_in_list(x, args, from, p),
        ExprModel::Path { absolute, steps } => {
            lemma_in_predicate(x, steps, from, p);
            let own: Seq<Seq<char>> = match path_text(absolute, steps, from) {
                Some(path) => seq![path],
                None => Seq::empty(),
            };
            lemma_in_sum(own, read_by_steps(steps, 0, from), p);
        },
        ExprModel::Filter { base, predicates, steps } => {
            let a = read_by(*base, from);
            let b = read_by_all(predicates, 0, from);
            let c = read_by_steps(steps, 0, from);
            if predicates.contains(x) {
                lemma_in_list(x, predicates, from, p);
            } else if x != *base {
                lemma_in_predicate(x, steps, from, p);
            }
            lemma_in_sum(a, b, p);
            lemma_in_sum(a + b, c, p);
        },
        _ => {},
    }
}

proof fn lemma_part_read(x: ExprModel, e: ExprModel, depth: nat, from: Seq<char>, p: Seq<char>)
    requires
        is_part_at(x, e, depth),
        read_by(x, from).contains(p),
    ensures
        read_by(e, from).contains(p),
    decreases depth,
{
    if depth > 0 {
        let y = choose|y: ExprModel| #[trigger]
            is_direct_part(y, e) && is_part_at(x, y, (depth - 1) as nat);
        lemma_part_read(x, y, (depth - 1) as nat, from, p);
        lemma_direct_part_read(y, e, from, p);
    }
}

/// What a part of an expression reads, the expression reads, wherever in it
/// the part stands: an operand, an argument, a predicate of any step.
pub proof fn law_parts_are_read(x: ExprModel, e: ExprModel, from: Seq<char>, p: Seq<char>)
    requires
        is_within(x, e),
        read_by(x, from).contains(p),
    ensures
        read_by(e, from).contains(p),
{
    let depth = choose|depth: nat| is_part_at(x, e, depth);
    lemma_part_read(x, e, depth, from, p);
}

// ---------------------------------------------------------------------------
// Paths
// ---------------------------------------------------------------------------

/// Whether steps go up some times and then down by names.
pub open spec fn leads_by(steps: Seq<StepModel>, up: nat, names: Seq<Seq<char>>) -> bool {
    &&& steps.len() == up + names.len()
    &&& forall|i: int| 0 <= i < up ==> (#[trigger] steps[i]).axis == Axis::Parent
    &&& forall|i: int|
        up <= i < steps.len() ==> (#[trigger] steps[i]).axis == Axis::Child && steps[i].test
            == TestModel::Named(names[i - up])
}

pub proof fn lemma_named_steps(
    parts: Seq<Seq<char>>,
    steps: Seq<StepModel>,
    up: nat,
    names: Seq<Seq<char>>,
    k: int,
)
    requires
        leads_by(steps, up, names),
        0 <= k <= steps.len(),
        k < up ==> up - k <= parts.len(),
    ensures
        stepped_parts(parts, steps, k) == Some(
            if k < up {
                parts.take(parts.len() - (up - k)) + names
            } else {
                parts + names.skip(k - up)
            },
        ),
    decreases steps.len() - k,
{
    if k < up {
        assert(steps[k].axis == Axis::Parent);
        lemma_named_steps(parts.drop_last(), steps, up, names, k + 1);
        if k + 1 < up {
            assert(parts.drop_last().take(parts.len() - 1 - (up - k - 1)) =~= parts.take(
                parts.len() - (up - k),
            ));
        } else {
            assert(names.skip(0) =~= names);
            assert(parts.drop_last() =~= parts.take(parts.len() - 1));
        }
    } else if k < steps.len() {
        assert(steps[k].axis == Axis::Child);
        lemma_named_steps(parts.push(names[k - up]), steps, up, names, k + 1);
        assert(parts.push(names[k - up]) + names.skip(k + 1 - up) =~= parts + names.skip(k - up));
    } else {
        assert(parts + names.skip(k - up) =~= parts);
    }
}

/// Every path that is written from the root, one name after another, is read
/// by the expression it stands in, wherever in it that is: in an operand, an
/// argument, or a predicate, that of a step into a lookup table too.
pub proof fn law_every_absolute_path_is_read(
    e: ExprModel,
    steps: Seq<StepModel>,
    names: Seq<Seq<char>>,
    from: Seq<char>,
)
    requires
        is_within(ExprModel::Path { absolute: true, steps }, e),
        leads_by(steps, 0, names),
        names.len() > 0,
    ensures
        read_by(e, from).contains("/"@ + join(names, "/"@)),
{
    let x = ExprModel::Path { absolute: true, steps };
    let p = "/"@ + join(names, "/"@);
    let none = Seq::<Seq<char>>::empty();
    lemma_named_steps(none, steps, 0, names, 0);
    assert(none + names.skip(0) =~= names);
    assert(seq![p][0] == p);
    lemma_in_sum(seq![p], read_by_steps(steps, 0, from), p);
    law_parts_are_read(x, e, from, p);
}

/// Every path that is written from a question, up some levels and down by
/// names, is read by the expression it stands in as the path from the root
/// that it comes to.
pub proof fn law_every_relative_path_is_read(
    e: ExprModel,
    steps: Seq<StepModel>,
    up: nat,
    names: Seq<Seq<char>>,
    at: Seq<Seq<char>>,
)
    requires
        is_within(ExprModel::Path { absolute: false, steps }, e),
        leads_by(steps, up, names),
        at.len() > 0,
        forall|i: int| 0 <= i < at.len() ==> !(#[trigger] at[i]).contains('/'),
        up <= at.len(),
        at.len() - up + names.len() > 0,
    ensures
        read_by(e, "/"@ + join(at, "/"@)).contains(
            "/"@ + join(at.take(at.len() - up) + names, "/"@),
        ),
{
    let from = "/"@ + join(at, "/"@);
    let x = ExprModel::Path { absolute: false, steps };
    let all = at.take(at.len() - up) + names;
    let p = "/"@ + join(all, "/"@);
    lemma_path_names(at);
    lemma_named_steps(at, steps, up, names, 0);
    if up == 0 {
        assert(at + names.skip(0) =~= all);
    }
    assert(seq![p][0] == p);
    lemma_in_sum(seq![p], read_by_steps(steps, 0, from), p);
    law_parts_are_read(x, e, from, p);
}

/// The names of a path are those it was written with.
pub proof fn lemma_path_names(at: Seq<Seq<char>>)
    requires
        at.len() > 0,
        forall|i: int| 0 <= i < at.len() ==> !(#[trigger] at[i]).contains('/'),
    ensures
        split_on("/"@ + join(at, "/"@), '/').skip(1) == at,
{
    reveal_strlit("/");
    assert("/"@ =~= seq!['/']);
    let none = Seq::<char>::empty();
    let all = seq![none] + at;
    lemma_join_first(none, at, "/"@);
    assert(none + "/"@ + join(at, "/"@) =~= "/"@ + join(at, "/"@));
    assert forall|i: int| 0 <= i < all.len() implies !(#[trigger] all[i]).contains('/') by {
        if i > 0 {
            assert(all[i] == at[i - 1]);
        }
    }
    law_split_undoes_join(all, '/');
    assert(all.skip(1) =~= at);
}

/// Whether a step leads to one path: to the children of a name, to the
/// parent, or nowhere.
pub open spec fn names_a_path(s: StepModel) -> bool {
    match s.axis {
        Axis::Child => s.test is Named,
        Axis::Parent | Axis::Self_ => true,
        _ => false,
    }
}

/// Whether a path is named by a path expression within another, whose steps
/// each name one.
pub open spec fn is_named_within(p: Seq<char>, e: ExprModel, from: Seq<char>) -> bool {
    exists|absolute: bool, steps: Seq<StepModel>|
        #![trigger path_text(absolute, steps, from)]
        is_within(ExprModel::Path { absolute, steps }, e) && path_text(absolute, steps, from)
            == Some(p) && forall|i: int|
            0 <= i < steps.len() ==> names_a_path(#[trigger] steps[i])
}

proof fn lemma_named_up(p: Seq<char>, x: ExprModel, e: ExprModel, from: Seq<char>)
    requires
        is_direct_part(x, e),
        is_named_within(p, x, from),
    ensures
        is_named_within(p, e, from),
{
    let (absolute, steps) = choose|absolute: bool, steps: Seq<StepModel>|
        #![trigger path_text(absolute, steps, from)]
        is_within(ExprModel::Path { absolute, steps }, x) && path_text(absolute, steps, from)
            == Some(p) && forall|i: int|
            0 <= i < steps.len() ==> names_a_path(#[trigger] steps[i]);
    lemma_within(ExprModel::Path { absolute, steps }, x, e);
}

proof fn lemma_steps_name(parts: Seq<Seq<char>>, steps: Seq<StepModel>, k: int)
    requires
        0 <= k <= steps.len(),
        stepped_parts(parts, steps, k) is Some,
    ensures
        forall|i: int| k <= i < steps.len() ==> names_a_path(#[trigger] steps[i]),
    decreases steps.len() - k,
{
    if k < steps.len() {
        match (steps[k].axis, steps[k].test) {
            (Axis::Child, TestModel::Named(name)) => lemma_steps_name(
                parts.push(name),
                steps,
                k + 1,
            ),
            (Axis::Parent, _) => lemma_steps_name(parts.drop_last(), steps, k + 1),
            _ => lemma_steps_name(parts, steps, k + 1),
        }
    }
}

/// An expression reads no path that it does not name: no dependency is
/// invented, a wildcard or an axis that fans out names none.
pub proof fn law_only_named_paths_are_read(e: ExprModel, from: Seq<char>, p: Seq<char>)
    requires
        read_by(e, from).contains(p),
    ensures
        is_named_within(p, e, from),
    decreases e, 0nat,
{
    match e {
        ExprModel::Path { absolute, steps } => {
            let own: Seq<Seq<char>> = match path_text(absolute, steps, from) {
                Some(path) => seq![path],
                None => Seq::empty(),
            };
            lemma_in_sum(own, read_by_steps(steps, 0, from), p);
            lemma_within(e, e, e);
            if own.contains(p) {
                let start = if absolute {
                    Seq::empty()
                } else {
                    split_on(from, '/').skip(1)
                };
                lemma_steps_name(start, steps, 0);
                assert(path_text(absolute, steps, from) == Some(p));
            } else {
                let (k, j) = lemma_only_in_steps(steps, 0, from, p);
                lemma_named_up(p, steps[k].predicates[j], e, from);
            }
        },
        ExprModel::Filter { base, predicates, steps } => {
            let a = read_by(*base, from);
            let b = read_by_all(predicates, 0, from);
            let c = read_by_steps(steps, 0, from);
            lemma_in_sum(a, b, p);
            lemma_in_sum(a + b, c, p);
            if a.contains(p) {
                law_only_named_paths_are_read(*base, from, p);
                lemma_named_up(p, *base, e, from);
            } else if b.contains(p) {
                let i = lemma_only_in_all(predicates, 0, from, p);
                lemma_named_up(p, predicates[i], e, from);
            } else {
                let (k, j) = lemma_only_in_steps(steps, 0, from, p);
                lemma_named_up(p, steps[k].predicates[j], e, from);
            }
        },
        ExprModel::Function { name, args } => {
            let i = lemma_only_in_all(args, 0, from, p);
            lemma_named_up(p, args[i], e, from);
        },
        ExprModel::Binary { op, left, right } => {
            lemma_in_sum(read_by(*left, from), read_by(*right, from), p);
            if read_by(*left, from).contains(p) {
                law_only_named_paths_are_read(*left, from, p);
                lemma_named_up(p, *left, e, from);
            } else {
                law_only_named_paths_are_read(*right, from, p);
                lemma_named_up(p, *right, e, from);
            }
        },
        ExprModel::Union(left, right) => {
            lemma_in_sum(read_by(*left, from), read_by(*right, from), p);
            if read_by(*left, from).contains(p) {
                law_only_named_paths_are_read(*left, from, p);
                lemma_named_up(p, *left, e, from);
            } else {
                law_only_named_paths_are_read(*right, from, p);
                lemma_named_up(p, *right, e, from);
            }
        },
        ExprModel::Negate(inner) => {
            law_only_named_paths_are_read(*inner, from, p);
            lemma_named_up(p, *inner, e, from);
        },
        _ => {},
    }
}

proof fn lemma_only_in_all(s: Seq<ExprModel>, k: int, from: Seq<char>, p: Seq<char>) -> (i: int)
    requires
        0 <= k,
        read_by_all(s, k, from).contains(p),
    ensures
        k <= i < s.len(),
        is_named_within(p, s[i], from),
        s.contains(s[i]),
    decreases s, s.len() - k,
{
    lemma_in_sum(read_by(s[k], from), read_by_all(s, k + 1, from), p);
    if read_by(s[k], from).contains(p) {
        law_only_named_paths_are_read(s[k], from, p);
        k
    } else {
        lemma_only_in_all(s, k + 1, from, p)
    }
}

proof fn lemma_only_in_steps(s: Seq<StepModel>, k: int, from: Seq<char>, p: Seq<char>) -> (r: (
    int,
    int,
))
    requires
        0 <= k,
        read_by_steps(s, k, from).contains(p),
    ensures
        k <= r.0 < s.len(),
        0 <= r.1 < s[r.0].predicates.len(),
        is_named_within(p, s[r.0].predicates[r.1], from),
        is_predicate_of(s[r.0].predicates[r.1], s),
    decreases s, s.len() - k,
{
    let own = read_by_all(s[k].predicates, 0, from);
    lemma_in_sum(own, read_by_steps(s, k + 1, from), p);
    if own.contains(p) {
        let j = lemma_only_in_all(s[k].predicates, 0, from, p);
        (k, j)
    } else {
        lemma_only_in_steps(s, k + 1, from, p)
    }
}

// ---------------------------------------------------------------------------
// The order of calculations
// ---------------------------------------------------------------------------

proof fn lemma_last_bound(bindings: Seq<BindingModel>, path: Seq<char>, n: int, j: int)
    requires
        0 <= j < n <= bindings.len(),
        bindings[j].path == path,
        forall|k: int| j < k < n ==> (#[trigger] bindings[k]).path != path,
    ensures
        last_bound(bindings, path, n) == Some(j),
    decreases n,
{
    if n - 1 > j {
        assert(bindings[n - 1].path != path);
        lemma_last_bound(bindings, path, n - 1, j);
    }
}

/// A calculation runs after every other whose question it reads, wherever
/// in it that question is read: a row looked up by a calculated key is looked
/// up after the key was calculated.
pub proof fn law_what_is_read_runs_first(
    bindings: Seq<BindingModel>,
    i: int,
    j: int,
    e: ExprModel,
    steps: Seq<StepModel>,
    names: Seq<Seq<char>>,
)
    requires
        ordering(bindings) is Ok,
        0 <= i < bindings.len(),
        0 <= j < bindings.len(),
        i != j,
        bindings[i].calculate == Some(e),
        bindings[j].calculate is Some,
        is_within(ExprModel::Path { absolute: true, steps }, e),
        leads_by(steps, 0, names),
        names.len() > 0,
        bindings[j].path == "/"@ + join(names, "/"@),
        forall|k: int| j < k < bindings.len() ==> (#[trigger] bindings[k]).path != bindings[j].path,
    ensures
        exists|a: int, b: int|
            0 <= a < b < ordering(bindings)->Ok_0.len() && #[trigger] ordering(bindings)->Ok_0[a]
                == j && #[trigger] ordering(bindings)->Ok_0[b] == i,
{
    let order = ordering(bindings)->Ok_0;
    let path = bindings[j].path;
    law_every_absolute_path_is_read(e, steps, names, bindings[i].path);
    let r = read_by(e, bindings[i].path);
    let k = choose|k: int| 0 <= k < r.len() && r[k] == path;
    lemma_last_bound(bindings, path, bindings.len() as int, j);
    assert(last_bound(bindings, read_by(e, bindings[i].path)[k], bindings.len() as int) == Some(j));
    assert(depends(bindings, i, j));
    law_order_respects_dependencies(bindings);
    assert(order.contains(i));
    let b = choose|b: int| 0 <= b < order.len() && order[b] == i;
    assert(depends(bindings, order[b], j));
    let first = order.take(b);
    let a = choose|a: int| 0 <= a < first.len() && first[a] == j;
    assert(order[a] == j);
}

} // verus!
