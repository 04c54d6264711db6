//! The expressions that an expression is made of.

use crate::parser::ast::{ExprModel, StepModel};
use vstd::prelude::*;

verus! {

/// Whether an expression is a predicate of one of some steps.
pub open spec fn is_predicate_of(x: ExprModel, steps: Seq<StepModel>) -> bool {
    exists|k: int, j: int|
        0 <= k < steps.len() && 0 <= j < steps[k].predicates.len()
            && #[trigger] steps[k].predicates[j] == x
}

/// Whether an expression is a part of another, one level down: an operand, an
/// argument, the base of a path, a predicate wherever one stands.
pub open spec fn is_direct_part(x: ExprModel, e: ExprModel) -> bool {
    match e {
        ExprModel::Negate(inner) => x == *inner,
        ExprModel::Union(left, right) => x == *left || x == *right,
        ExprModel::Binary { op, left, right } => x == *left || x == *right,
        ExprModel::Function { name, args } => args.contains(x),
        ExprModel::Path { absolute, steps } => is_predicate_of(x, steps),
        ExprModel::Filter { base, predicates, steps } => x == *base || predicates.contains(x)
            || is_predicate_of(x, steps),
        _ => false,
    }
}

/// Whether an expression is a part of another, some levels down.
pub open spec fn is_part_at(x: ExprModel, e: ExprModel, depth: nat) -> bool
    decreases depth,
{
    if depth == 0 {
        x == e
    } else {
        exists|y: ExprModel| #[trigger]
            is_direct_part(y, e) && is_part_at(x, y, (depth - 1) as nat)
    }
}

/// Whether an expression is another, or is anywhere in it.
pub open spec fn is_within(x: ExprModel, e: ExprModel) -> bool {
    exists|depth: nat| is_part_at(x, e, depth)
}

/// An expression is within itself, and what is within a part is within the
/// whole.
pub proof fn lemma_within(x: ExprModel, y: ExprModel, e: ExprModel)
    ensures
        is_within(e, e),
        is_within(x, y) && is_direct_part(y, e) ==> is_within(x, e),
{
    assert(is_part_at(e, e, 0));
    if is_within(x, y) && is_direct_part(y, e) {
        let depth = choose|depth: nat| is_part_at(x, y, depth);
        assert(is_part_at(x, y, (depth + 1 - 1) as nat));
        assert(is_part_at(x, e, depth + 1));
    }
}

/// What is in two lists put together is in one of them.
pub proof fn lemma_in_sum<T>(a: Seq<T>, b: Seq<T>, x: T)
    ensures
        (a + b).contains(x) <==> a.contains(x) || b.contains(x),
{
    let r = a + b;
    if a.contains(x) {
        let k = choose|k: int| 0 <= k < a.len() && a[k] == x;
        assert(r[k] == x);
    }
    if b.contains(x) {
        let k = choose|k: int| 0 <= k < b.len() && b[k] == x;
        assert(r[a.len() + k] == x);
    }
    if r.contains(x) {
        let k = choose|k: int| 0 <= k < r.len() && r[k] == x;
        if k < a.len() {
            assert(a[k] == x);
        } else {
            assert(b[k - a.len()] == x);
        }
    }
}

} // verus!
