//! What predicates leave of nodes.

use crate::eval::value::ValueModel;
use crate::eval::{eval, filtered, keeps, kept, Here, Surroundings};
use crate::number::counting::{law_counts_differ, EXACT};
use crate::number::{equal, of_count, Number};
use crate::parser::ast::ExprModel;
use crate::tree::{NodeId, Tree};
use vstd::prelude::*;

verus! {

/// Whether a list is what another holds at some places, one after another.
pub open spec fn stands_at(a: Seq<NodeId>, b: Seq<NodeId>, at: Seq<int>) -> bool {
    &&& at.len() == a.len()
    &&& forall|i: int| 0 <= i < at.len() ==> 0 <= #[trigger] at[i] < b.len() && a[i] == b[at[i]]
    &&& forall|i: int, j: int| 0 <= i < j < at.len() ==> (#[trigger] at[i]) < (#[trigger] at[j])
}

/// Whether a list is another with some of its members left out.
pub open spec fn is_part_of(a: Seq<NodeId>, b: Seq<NodeId>) -> bool {
    exists|at: Seq<int>| stands_at(a, b, at)
}

proof fn lemma_kept_part(
    nodes: Seq<NodeId>,
    predicate: ExprModel,
    i: int,
    t: Tree,
    env: Surroundings,
) -> (at: Seq<int>)
    requires
        kept(nodes, predicate, i, t, env) is Ok,
        0 <= i,
    ensures
        stands_at(kept(nodes, predicate, i, t, env)->Ok_0, nodes, at),
        forall|j: int| 0 <= j < at.len() ==> #[trigger] at[j] >= i,
    decreases nodes.len() - i,
{
    if i < nodes.len() {
        let rest = lemma_kept_part(nodes, predicate, i + 1, t, env);
        let here = Here { node: nodes[i], position: (i + 1) as nat, size: nodes.len() };
        let v = eval(predicate, t, here, env)->Ok_0;
        if keeps(v, i) {
            let at = seq![i] + rest;
            let all = kept(nodes, predicate, i, t, env)->Ok_0;
            let tail = kept(nodes, predicate, i + 1, t, env)->Ok_0;
            assert(all == seq![nodes[i]] + tail);
            assert forall|j: int| 0 <= j < at.len() implies 0 <= #[trigger] at[j] < nodes.len()
                && all[j] == nodes[at[j]] by {
                if j > 0 {
                    assert(at[j] == rest[j - 1]);
                    assert(all[j] == tail[j - 1]);
                }
            }
            assert forall|j: int, k: int| 0 <= j < k < at.len() implies (#[trigger] at[j]) < (
            #[trigger] at[k]) by {
                assert(at[k] == rest[k - 1]);
                if j > 0 {
                    assert(at[j] == rest[j - 1]);
                }
            }
            at
        } else {
            rest
        }
    } else {
        Seq::empty()
    }
}

proof fn lemma_filtered_part(
    nodes: Seq<NodeId>,
    predicates: Seq<ExprModel>,
    k: int,
    t: Tree,
    env: Surroundings,
) -> (at: Seq<int>)
    requires
        filtered(nodes, predicates, k, t, env) is Ok,
        0 <= k,
    ensures
        stands_at(filtered(nodes, predicates, k, t, env)->Ok_0, nodes, at),
    decreases predicates.len() - k,
{
    if k < predicates.len() {
        let next = kept(nodes, predicates[k], 0, t, env)->Ok_0;
        let first = lemma_kept_part(nodes, predicates[k], 0, t, env);
        let rest = lemma_filtered_part(next, predicates, k + 1, t, env);
        let at = Seq::new(rest.len(), |i: int| first[rest[i]]);
        let all = filtered(nodes, predicates, k, t, env)->Ok_0;
        assert forall|i: int| 0 <= i < at.len() implies 0 <= #[trigger] at[i] < nodes.len()
            && all[i] == nodes[at[i]] by {
            assert(0 <= rest[i] < next.len() && all[i] == next[rest[i]]);
            assert(next[rest[i]] == nodes[first[rest[i]]]);
        }
        assert forall|i: int, j: int| 0 <= i < j < at.len() implies (#[trigger] at[i]) < (
        #[trigger] at[j]) by {
            assert(rest[i] < rest[j]);
        }
        at
    } else {
        let at = Seq::new(nodes.len(), |i: int| i);
        assert(stands_at(nodes, nodes, at));
        at
    }
}

/// Predicates leave some of the nodes they are given, in the order these
/// had.
pub proof fn law_predicates_choose(
    nodes: Seq<NodeId>,
    predicates: Seq<ExprModel>,
    t: Tree,
    env: Surroundings,
)
    ensures
        filtered(nodes, predicates, 0, t, env) matches Ok(r) ==> is_part_of(r, nodes),
{
    if let Ok(r) = filtered(nodes, predicates, 0, t, env) {
        let at = lemma_filtered_part(nodes, predicates, 0, t, env);
        assert(stands_at(r, nodes, at));
    }
}

proof fn lemma_second(
    nodes: Seq<NodeId>,
    p: Seq<ExprModel>,
    q: Seq<ExprModel>,
    k: int,
    t: Tree,
    env: Surroundings,
)
    requires
        0 <= k <= q.len(),
    ensures
        filtered(nodes, p + q, p.len() + k, t, env) == filtered(nodes, q, k, t, env),
    decreases q.len() - k,
{
    if k < q.len() {
        assert((p + q)[p.len() + k] == q[k]);
        if let Ok(next) = kept(nodes, q[k], 0, t, env) {
            lemma_second(next, p, q, k + 1, t, env);
        }
    }
}

proof fn lemma_first(
    nodes: Seq<NodeId>,
    p: Seq<ExprModel>,
    q: Seq<ExprModel>,
    k: int,
    t: Tree,
    env: Surroundings,
)
    requires
        0 <= k <= p.len(),
    ensures
        filtered(nodes, p + q, k, t, env) == match filtered(nodes, p, k, t, env) {
            Ok(left) => filtered(left, q, 0, t, env),
            Err(e) => Err(e),
        },
    decreases p.len() - k,
{
    if k < p.len() {
        assert((p + q)[k] == p[k]);
        if let Ok(next) = kept(nodes, p[k], 0, t, env) {
            lemma_first(next, p, q, k + 1, t, env);
        }
    } else {
        lemma_second(nodes, p, q, 0, t, env);
    }
}

/// Predicates filter one after another: those that follow see what those
/// before them left, and nothing else.
pub proof fn law_predicates_filter_in_turn(
    nodes: Seq<NodeId>,
    p: Seq<ExprModel>,
    q: Seq<ExprModel>,
    t: Tree,
    env: Surroundings,
)
    ensures
        filtered(nodes, p + q, 0, t, env) == match filtered(nodes, p, 0, t, env) {
            Ok(left) => filtered(left, q, 0, t, env),
            Err(e) => Err(e),
        },
{
    lemma_first(nodes, p, q, 0, t, env);
}

/// The node at place `k`, when a list is looked through from `i` on.
spec fn only(nodes: Seq<NodeId>, k: int, i: int) -> Seq<NodeId> {
    if i < k <= nodes.len() {
        seq![nodes[k - 1]]
    } else {
        Seq::empty()
    }
}

proof fn lemma_number_kept(
    n: Number,
    k: int,
    nodes: Seq<NodeId>,
    i: int,
    t: Tree,
    env: Surroundings,
)
    requires
        0 <= i,
        nodes.len() < EXACT,
        forall|j: int|
            1 <= j <= nodes.len() ==> (#[trigger] equal(n, of_count(j as nat)) <==> j == k),
    ensures
        kept(nodes, ExprModel::Number(n), i, t, env) == Ok::<Seq<NodeId>, Seq<char>>(
            only(nodes, k, i),
        ),
    decreases nodes.len() - i,
{
    if i < nodes.len() {
        let here = Here { node: nodes[i], position: (i + 1) as nat, size: nodes.len() };
        assert(eval(ExprModel::Number(n), t, here, env) == Ok::<ValueModel, Seq<char>>(
            ValueModel::Number(n),
        ));
        lemma_number_kept(n, k, nodes, i + 1, t, env);
        let rest = kept(nodes, ExprModel::Number(n), i + 1, t, env);
        assert(keeps(ValueModel::Number(n), i) <==> i + 1 == k);
        if i + 1 == k {
            assert(seq![nodes[i]] + Seq::<NodeId>::empty() =~= seq![nodes[i]]);
        }
    }
}

/// A number in a predicate picks by place: `[k]` leaves the one node at
/// place `k`, counted from 1, and a number that is the place of none leaves
/// nothing.
pub proof fn law_number_picks_one(
    n: Number,
    nodes: Seq<NodeId>,
    t: Tree,
    env: Surroundings,
)
    requires
        nodes.len() < EXACT,
    ensures
        forall|k: nat|
            1 <= k <= nodes.len() && n == #[trigger] of_count(k) ==> filtered(
                nodes,
                seq![ExprModel::Number(n)],
                0,
                t,
                env,
            ) == Ok::<Seq<NodeId>, Seq<char>>(seq![nodes[k - 1]]),
        (forall|k: nat| 1 <= k <= nodes.len() ==> !equal(n, #[trigger] of_count(k))) ==> filtered(
            nodes,
            seq![ExprModel::Number(n)],
            0,
            t,
            env,
        ) == Ok::<Seq<NodeId>, Seq<char>>(Seq::empty()),
{
    let p = seq![ExprModel::Number(n)];
    assert(p[0] == ExprModel::Number(n));
    reveal_with_fuel(filtered, 2);
    assert forall|k: nat| 1 <= k <= nodes.len() && n == #[trigger] of_count(k) implies filtered(
        nodes,
        p,
        0,
        t,
        env,
    ) == Ok::<Seq<NodeId>, Seq<char>>(seq![nodes[k - 1]]) by {
        assert forall|j: int| 1 <= j <= nodes.len() implies (#[trigger] equal(
            n,
            of_count(j as nat),
        ) <==> j == k) by {
            law_counts_differ(k, j as nat);
        }
        lemma_number_kept(n, k as int, nodes, 0, t, env);
    }
    if forall|k: nat| 1 <= k <= nodes.len() ==> !equal(n, #[trigger] of_count(k)) {
        assert forall|j: int| 1 <= j <= nodes.len() implies (#[trigger] equal(
            n,
            of_count(j as nat),
        ) <==> j == 0) by {
            assert(!equal(n, of_count(j as nat)));
        }
        lemma_number_kept(n, 0, nodes, 0, t, env);
    }
}

} // verus!
