//! The paths that an expression reads.

use crate::parser::ast::{
    exprs_model, steps_model, Axis, Expr, ExprModel, NameTest, Step, StepModel, TestModel,
};
use crate::parser::grammar::{lemma_models, lemma_step_models};
use crate::text::{cat2, join, joined, split, split_on, texts};
use vstd::prelude::*;

verus! {

/// A step to the children of a name.
pub open spec fn child_step(name: Seq<char>) -> StepModel {
    StepModel { axis: Axis::Child, test: TestModel::Named(name), predicates: Seq::empty() }
}

/// The names of the elements that steps lead to, from those of `parts`, the
/// first step being the one at `k`. A wildcard or an axis that fans out does
/// not name one path, and guessing at one would invent a dependency.
pub open spec fn stepped_parts(parts: Seq<Seq<char>>, steps: Seq<StepModel>, k: int) -> Option<
    Seq<Seq<char>>,
>
    decreases steps.len() - k,
{
    if k < 0 || k >= steps.len() {
        Some(parts)
    } else {
        match (steps[k].axis, steps[k].test) {
            (Axis::Child, TestModel::Named(name)) => stepped_parts(parts.push(name), steps, k + 1),
            (Axis::Parent, _) => if parts.len() == 0 {
                None
            } else {
                stepped_parts(parts.drop_last(), steps, k + 1)
            },
            (Axis::Self_, _) => stepped_parts(parts, steps, k + 1),
            _ => None,
        }
    }
}

/// The absolute path that a path names.
///
/// A relative path starts at the context node, the bound node itself, not
/// its parent. So `../age` on /data/resident/adult climbs from adult to
/// resident and lands on /data/resident/age. Starting a level up instead
/// lands on /data/age, which in a repeat is the difference between this
/// instance and none.
pub open spec fn path_text(absolute: bool, steps: Seq<StepModel>, from: Seq<char>) -> Option<
    Seq<char>,
> {
    let start = if absolute {
        Seq::empty()
    } else {
        split_on(from, '/').skip(1)
    };
    match stepped_parts(start, steps, 0) {
        None => None,
        Some(parts) => if parts.len() == 0 {
            None
        } else {
            Some("/"@ + join(parts, "/"@))
        },
    }
}

/// The absolute paths that an expression reads.
pub open spec fn read_by(e: ExprModel, from: Seq<char>) -> Seq<Seq<char>>
    decreases e, 0nat,
{
    match e {
        ExprModel::Path { absolute, steps } => (match path_text(absolute, steps, from) {
            Some(path) => seq![path],
            None => Seq::empty(),
        }) + read_by_steps(steps, 0, from),
        ExprModel::Filter { base, predicates, steps } => read_by(*base, from) + read_by_all(
            predicates,
            0,
            from,
        ) + read_by_steps(steps, 0, from),
        ExprModel::Function { name, args } => read_by_all(args, 0, from),
        ExprModel::Binary { op, left, right } => read_by(*left, from) + read_by(*right, from),
        ExprModel::Union(left, right) => read_by(*left, from) + read_by(*right, from),
        ExprModel::Negate(inner) => read_by(*inner, from),
        _ => Seq::empty(),
    }
}

pub open spec fn read_by_all(s: Seq<ExprModel>, k: int, from: Seq<char>) -> Seq<Seq<char>>
    decreases s, s.len() - k,
{
    if k < 0 || k >= s.len() {
        Seq::empty()
    } else {
        read_by(s[k], from) + read_by_all(s, k + 1, from)
    }
}

/// What the predicates of steps read.
pub open spec fn read_by_steps(s: Seq<StepModel>, k: int, from: Seq<char>) -> Seq<Seq<char>>
    decreases s, s.len() - k,
{
    if k < 0 || k >= s.len() {
        Seq::empty()
    } else {
        read_by_all(s[k].predicates, 0, from) + read_by_steps(s, k + 1, from)
    }
}

pub(crate) fn named_path(absolute: bool, steps: &Vec<Step>, from: &str) -> (r: Option<String>)
    ensures
        match r {
            Some(path) => path_text(absolute, steps_model(*steps), from@) == Some(path@),
            None => path_text(absolute, steps_model(*steps), from@) is None,
        },
{
    let ghost model = steps_model(*steps);
    proof {
        lemma_step_models(*steps);
    }
    let mut parts: Vec<String> = if absolute {
        Vec::new()
    } else {
        let mut all = split(from, '/');
        let ghost whole = all@;
        let _ = all.remove(0);
        assert(texts(all@) == texts(whole).skip(1));
        all
    };
    let ghost start = if absolute {
        Seq::<Seq<char>>::empty()
    } else {
        split_on(from@, '/').skip(1)
    };
    assert(texts(parts@) == start);
    let n = steps.len();
    for k in 0..n
        invariant
            n == steps@.len(),
            model == steps_model(*steps),
            model == crate::parser::grammar::step_models(steps@),
            start == (if absolute {
                Seq::<Seq<char>>::empty()
            } else {
                split_on(from@, '/').skip(1)
            }),
            stepped_parts(start, model, 0) == stepped_parts(texts(parts@), model, k as int),
    {
        let step = &steps[k];
        assert(model[k as int] == step@);
        let ghost was = parts@;
        match step.axis {
            Axis::Child => match &step.test {
                NameTest::Named(name) => {
                    parts.push(name.clone());
                    assert(texts(parts@) == texts(was).push(name@));
                },
                NameTest::Any => {
                    return None;
                },
            },
            Axis::Parent => {
                if parts.len() == 0 {
                    return None;
                }
                let _ = parts.pop();
                assert(texts(parts@) == texts(was).drop_last());
            },
            Axis::Self_ => {},
            _ => {
                return None;
            },
        }
    }
    if parts.len() == 0 {
        None
    } else {
        Some(cat2("/", joined(&parts, "/").as_str()))
    }
}

fn collect(expr: &Expr, from: &str, out: &mut Vec<String>)
    ensures
        texts(final(out)@) == texts(old(out)@) + read_by(expr@, from@),
    decreases expr, 0nat,
{
    let ghost before = texts(out@);
    match expr {
        Expr::Path { absolute, steps } => {
            let ghost named = match path_text(*absolute, steps_model(*steps), from@) {
                Some(path) => seq![path],
                None => Seq::<Seq<char>>::empty(),
            };
            let ghost was = out@;
            if let Some(path) = named_path(*absolute, steps, from) {
                let ghost text = path@;
                out.push(path);
                assert(texts(out@) == texts(was).push(text));
            }
            assert(texts(out@) == before + named);
            collect_steps(steps, from, out);
            assert(texts(out@) == before + (named + read_by_steps(steps_model(*steps), 0, from@)));
        },
        Expr::Filter { base, predicates, steps } => {
            collect(base, from, out);
            collect_all(predicates, from, out);
            collect_steps(steps, from, out);
            assert(texts(out@) == before + (read_by(base@, from@) + read_by_all(
                exprs_model(*predicates),
                0,
                from@,
            ) + read_by_steps(steps_model(*steps), 0, from@)));
        },
        Expr::Function { args, .. } => collect_all(args, from, out),
        Expr::Binary { left, right, .. } => {
            collect(left, from, out);
            collect(right, from, out);
            assert(texts(out@) == before + (read_by(left@, from@) + read_by(right@, from@)));
        },
        Expr::Union(left, right) => {
            collect(left, from, out);
            collect(right, from, out);
            assert(texts(out@) == before + (read_by(left@, from@) + read_by(right@, from@)));
        },
        Expr::Negate(inner) => collect(inner, from, out),
        Expr::Number(_) => {
            assert(before + Seq::<Seq<char>>::empty() == before);
        },
        Expr::Literal(_) => {
            assert(before + Seq::<Seq<char>>::empty() == before);
        },
        Expr::Variable(_) => {
            assert(before + Seq::<Seq<char>>::empty() == before);
        },
    }
}

fn collect_all(exprs: &Vec<Expr>, from: &str, out: &mut Vec<String>)
    ensures
        texts(final(out)@) == texts(old(out)@) + read_by_all(exprs_model(*exprs), 0, from@),
    decreases exprs, 1nat,
{
    let ghost model = exprs_model(*exprs);
    let ghost all = texts(out@) + read_by_all(model, 0, from@);
    proof {
        lemma_models(*exprs);
    }
    let n = exprs.len();
    for k in 0..n
        invariant
            n == exprs@.len(),
            model == exprs_model(*exprs),
            model == crate::parser::grammar::expr_models(exprs@),
            all == texts(out@) + read_by_all(model, k as int, from@),
    {
        assert(decreases_to!(exprs => exprs@[k as int]));
        let ghost was = texts(out@);
        collect(&exprs[k], from, out);
        assert(model[k as int] == exprs@[k as int]@);
        assert(was + (read_by(model[k as int], from@) + read_by_all(model, k + 1, from@)) == texts(
            out@,
        ) + read_by_all(model, k + 1, from@));
    }
    assert(texts(out@) + Seq::<Seq<char>>::empty() == texts(out@));
}

fn collect_steps(steps: &Vec<Step>, from: &str, out: &mut Vec<String>)
    ensures
        texts(final(out)@) == texts(old(out)@) + read_by_steps(steps_model(*steps), 0, from@),
    decreases steps, 1nat,
{
    let ghost model = steps_model(*steps);
    let ghost all = texts(out@) + read_by_steps(model, 0, from@);
    proof {
        lemma_step_models(*steps);
    }
    let n = steps.len();
    for k in 0..n
        invariant
            n == steps@.len(),
            model == steps_model(*steps),
            model == crate::parser::grammar::step_models(steps@),
            all == texts(out@) + read_by_steps(model, k as int, from@),
    {
        assert(decreases_to!(steps => steps@[k as int].predicates));
        let ghost was = texts(out@);
        collect_all(&steps[k].predicates, from, out);
        assert(model[k as int] == steps@[k as int]@);
        assert(was + (read_by_all(model[k as int].predicates, 0, from@) + read_by_steps(
            model,
            k + 1,
            from@,
        )) == texts(out@) + read_by_steps(model, k + 1, from@));
    }
    assert(texts(out@) + Seq::<Seq<char>>::empty() == texts(out@));
}

/// The absolute paths an expression reads.
///
/// Relative paths are resolved against the binding they appear in, so
/// `../age` inside `/data/household/resident/name` means
/// `/data/household/resident/age`, which is how a dependency inside a repeat
/// is found at all.
pub fn referenced_paths(expr: &Expr, from: &str) -> (r: Vec<String>)
    ensures
        texts(r@) == read_by(expr@, from@),
{
    let mut out: Vec<String> = Vec::new();
    assert(texts(out@) == Seq::<Seq<char>>::empty());
    collect(expr, from, &mut out);
    assert(Seq::<Seq<char>>::empty() + read_by(expr@, from@) == read_by(expr@, from@));
    out
}

} // verus!
