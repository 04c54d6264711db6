//! Addresses lead to what they were made of.

use crate::eval::nodes::{candidates, named_from, sorted_unique};
use crate::eval::predicates::law_number_picks_one;
use crate::eval::{filtered, stepped, walked, Surroundings};
use crate::number::counting::EXACT;
use crate::number::of_count;
use crate::parser::ast::{Axis, ExprModel, StepModel, TestModel};
use crate::parser::grammar::parse_model;
use crate::parser::written::{
    is_plain_name, law_written_path_reads, read_step, read_steps, written_steps,
};
use crate::rules::checking::{nodes_for, present};
use crate::tree::edit::place_after;
use crate::tree::standing::{
    lemma_distinct_children, lemma_distinct_fit, lemma_visited, stands_under,
};
use crate::tree::{NodeId, Tree};
use vstd::prelude::*;

verus! {

/// The step that an address writes for a node: its name, and its place among
/// the siblings of that name where it is not the only one.
pub open spec fn step_to(t: Tree, n: NodeId) -> StepModel {
    StepModel {
        axis: Axis::Child,
        test: TestModel::Named(t.name(n)),
        predicates: match t.parent(n) {
            None => Seq::empty(),
            Some(p) => {
                let all = t.children(p);
                if t.named_among(all, t.name(n), all.len() as int) > 1 {
                    seq![
                        ExprModel::Number(
                            of_count(t.named_among(all, t.name(n), place_after(all, n))),
                        ),
                    ]
                } else {
                    Seq::empty()
                }
            },
        },
    }
}

/// A node and what is above it, the highest first.
pub open spec fn line_to(t: Tree, n: NodeId) -> Seq<NodeId> {
    (seq![n] + t.ancestors(n)).reverse()
}

pub open spec fn steps_to(t: Tree, n: NodeId) -> Seq<StepModel> {
    Seq::new(line_to(t, n).len(), |i: int| step_to(t, line_to(t, n)[i]))
}

/// Whether the address of a node is read as it is written, one step for each
/// name: so are all whose names can stand in an expression.
pub open spec fn reads_as_written(t: Tree, n: NodeId) -> bool {
    parse_model(t.address_of(n)) == Ok::<ExprModel, Seq<char>>(
        ExprModel::Path { absolute: true, steps: steps_to(t, n) },
    )
}

/// A line leads down from the root to the node, from parent to child.
pub proof fn lemma_line(t: Tree, root: NodeId, n: NodeId)
    requires
        t.wf(),
        t.has(n),
        t.parent(root) is None,
        stands_under(t, root, n),
    ensures
        t.all_in(line_to(t, n)),
        line_to(t, n).len() > 0,
        line_to(t, n)[0] == root,
        line_to(t, n).last() == n,
        forall|i: int|
            0 < i < line_to(t, n).len() ==> t.parent(#[trigger] line_to(t, n)[i]) == Some(
                line_to(t, n)[i - 1],
            ) && t.children(line_to(t, n)[i - 1]).contains(line_to(t, n)[i]),
    decreases t.ranking().bound - t.height(n),
{
    let line = line_to(t, n);
    if n == root {
        assert(t.ancestors(n) == Seq::<NodeId>::empty());
        assert(line == seq![n]);
    } else {
        let p = t.parent(n)->0;
        t.lemma_parent(n);
        lemma_line(t, root, p);
        let above = line_to(t, p);
        assert(t.ancestors(n) == seq![p] + t.ancestors(p));
        assert(line =~= above.push(n));
        assert forall|i: int| 0 < i < line.len() implies t.parent(#[trigger] line[i]) == Some(
            line[i - 1],
        ) && t.children(line[i - 1]).contains(line[i]) by {
            if i < above.len() {
                assert(line[i] == above[i] && line[i - 1] == above[i - 1]);
            } else {
                assert(line[i] == n && line[i - 1] == p);
            }
        }
        assert forall|i: int| 0 <= i < line.len() implies t.has(#[trigger] line[i]) by {
            if i < above.len() {
                assert(t.has(above[i]));
            }
        }
    }
}

pub proof fn lemma_place(s: Seq<NodeId>, j: int)
    requires
        0 <= j < s.len(),
        s.no_duplicates(),
    ensures
        place_after(s, s[j]) == j + 1,
    decreases s.len(),
{
    if j > 0 {
        assert(s[0] != s[j]);
        let rest = s.skip(1);
        assert(rest[j - 1] == s[j]);
        assert(rest.no_duplicates()) by {
            assert forall|a: int, b: int| 0 <= a < b < rest.len() implies rest[a] != rest[b] by {
                assert(rest[a] == s[a + 1] && rest[b] == s[b + 1]);
            }
        }
        lemma_place(rest, j - 1);
    }
}

/// The node at `j` stands among those of its name at the place that is
/// counted.
proof fn lemma_named(t: Tree, s: Seq<NodeId>, name: Seq<char>, i: int, j: int)
    requires
        t.all_in(s),
        0 <= i <= j < s.len(),
        t.name(s[j]) == name,
    ensures
        named_from(t, s, TestModel::Named(name), i) matches Ok(r) && r.len() + t.named_among(
            s,
            name,
            i,
        ) == t.named_among(s, name, s.len() as int) && t.named_among(s, name, i) <= t.named_among(
            s,
            name,
            j,
        ) < t.named_among(s, name, s.len() as int) && r[t.named_among(s, name, j) - t.named_among(
            s,
            name,
            i,
        )] == s[j],
    decreases s.len() - i,
{
    let test = TestModel::Named(name);
    assert(t.has(s[i]));
    assert(t.named_among(s, name, i + 1) == t.named_among(s, name, i) + if t.name(s[i]) == name {
        1nat
    } else {
        0
    });
    if i < j {
        lemma_named(t, s, name, i + 1, j);
        let rest = named_from(t, s, test, i + 1)->Ok_0;
        if t.name(s[i]) == name {
            let d = t.named_among(s, name, j) - t.named_among(s, name, i);
            assert((seq![s[i]] + rest)[d] == rest[d - 1]);
        }
    } else {
        lemma_named_rest(t, s, name, i + 1);
    }
}

proof fn lemma_named_rest(t: Tree, s: Seq<NodeId>, name: Seq<char>, i: int)
    requires
        t.all_in(s),
        0 <= i <= s.len(),
    ensures
        named_from(t, s, TestModel::Named(name), i) matches Ok(r) && r.len() + t.named_among(
            s,
            name,
            i,
        ) == t.named_among(s, name, s.len() as int),
    decreases s.len() - i,
{
    if i < s.len() {
        assert(t.has(s[i]));
        assert(t.named_among(s, name, i + 1) == t.named_among(s, name, i) + if t.name(s[i])
            == name {
            1nat
        } else {
            0
        });
        lemma_named_rest(t, s, name, i + 1);
    }
}

proof fn lemma_named_bound(t: Tree, s: Seq<NodeId>, name: Seq<char>, k: int)
    requires
        0 <= k <= s.len(),
    ensures
        t.named_among(s, name, k) <= k,
    decreases k,
{
    if k > 0 {
        lemma_named_bound(t, s, name, k - 1);
    }
}

/// The step that an address writes for a node leads to it from its parent.
proof fn lemma_one_step(t: Tree, p: NodeId, n: NodeId, env: Surroundings)
    requires
        t.wf(),
        t.upright(),
        t.has(p),
        t.has(n),
        t.parent(n) == Some(p),
        t.children(p).contains(n),
        t.children(p).len() < EXACT,
    ensures
        stepped(seq![p], step_to(t, n), 0, t, env) == Ok::<Seq<NodeId>, Seq<char>>(seq![n]),
{
    let all = t.children(p);
    let name = t.name(n);
    let step = step_to(t, n);
    let test = TestModel::Named(name);
    t.lemma_children_in(p);
    let j = choose|j: int| 0 <= j < all.len() && all[j] == n;
    lemma_distinct_children(t, p);
    lemma_place(all, j);
    lemma_named(t, all, name, 0, j);
    let r = named_from(t, all, test, 0)->Ok_0;
    let k = t.named_among(all, name, j + 1);
    assert(k == t.named_among(all, name, j) + 1);
    assert(r[k - 1] == n);
    lemma_named_bound(t, all, name, all.len() as int);
    if r.len() > 1 {
        law_number_picks_one(of_count(k), r, t, env);
        assert(1 <= k <= r.len() && of_count(k) == of_count(k));
    } else {
        assert(r =~= seq![n]);
    }
    assert(filtered(r, step.predicates, 0, t, env) == Ok::<Seq<NodeId>, Seq<char>>(seq![n]));
    let from = seq![p];
    assert(from[0] == p);
    assert(candidates(t, p, Axis::Child) == Ok::<Seq<NodeId>, Seq<char>>(all));
    assert(stepped(from, step, 1, t, env) == Ok::<Seq<NodeId>, Seq<char>>(Seq::empty()));
    assert(seq![n] + Seq::<NodeId>::empty() == seq![n]);
}

proof fn lemma_alone(t: Tree, n: NodeId)
    ensures
        sorted_unique(t, seq![n]) == seq![n],
{
    let s = seq![n];
    assert(s.drop_last() == Seq::<NodeId>::empty());
    reveal_with_fuel(Tree::sorted, 2);
    assert(t.sorted(s) == seq![n]);
}

/// The steps of an address lead down its line.
proof fn lemma_led(t: Tree, root: NodeId, n: NodeId, i: int, env: Surroundings)
    requires
        t.wf(),
        t.upright(),
        t.has(n),
        t.parent(root) is None,
        t.nodes.len() < EXACT,
        stands_under(t, root, n),
        0 <= i < line_to(t, n).len(),
    ensures
        walked(seq![line_to(t, n)[i]], steps_to(t, n), i + 1, t, env) == Ok::<
            Seq<NodeId>,
            Seq<char>,
        >(seq![n]),
    decreases line_to(t, n).len() - i,
{
    let line = line_to(t, n);
    let steps = steps_to(t, n);
    lemma_line(t, root, n);
    if i + 1 < line.len() {
        let p = line[i];
        let c = line[i + 1];
        assert(t.has(line[i]) && t.has(line[i + 1]));
        assert(t.parent(line[i + 1]) == Some(line[i]));
        assert(steps[i + 1] == step_to(t, c));
        lemma_children_fit(t, p);
        lemma_one_step(t, p, c, env);
        lemma_alone(t, c);
        lemma_led(t, root, n, i + 1, env);
    }
}

/// No node has more children than there are nodes.
proof fn lemma_children_fit(t: Tree, p: NodeId)
    requires
        t.wf(),
        t.upright(),
        t.has(p),
    ensures
        t.children(p).len() <= t.nodes.len(),
{
    let all = t.children(p);
    lemma_distinct_children(t, p);
    assert forall|i: int| 0 <= i < all.len() implies (#[trigger] all[i]).0 < t.nodes.len() by {
        assert(t.has(t.nodes[p.0 as int].children[i]));
    }
    lemma_distinct_fit(all, t.nodes.len() as int);
}

/// The name of a node, and its place among its like where an address gives
/// one.
spec fn written_of(t: Tree, n: NodeId) -> (Seq<char>, Option<nat>) {
    (
        t.name(n),
        match t.parent(n) {
            None => None,
            Some(p) => {
                let all = t.children(p);
                if t.named_among(all, t.name(n), all.len() as int) > 1 {
                    Some(t.named_among(all, t.name(n), place_after(all, n)))
                } else {
                    None
                }
            },
        },
    )
}

/// An address is read as it is written where the names in it can stand in an
/// expression as they are.
pub proof fn law_address_reads_as_written(t: Tree, n: NodeId)
    requires
        t.wf(),
        t.has(n),
        is_plain_name(t.name(n)),
        forall|i: int|
            0 <= i < t.ancestors(n).len() ==> is_plain_name(t.name(#[trigger] t.ancestors(n)[i])),
    ensures
        reads_as_written(t, n),
{
    let line = line_to(t, n);
    let up = seq![n] + t.ancestors(n);
    let steps = Seq::new(line.len(), |i: int| written_of(t, line[i]));
    assert forall|x: int| 0 <= x < steps.len() implies is_plain_name((#[trigger] steps[x]).0) by {
        let k = up.len() - 1 - x;
        assert(line[x] == up[k]);
        if k > 0 {
            assert(up[k] == t.ancestors(n)[k - 1]);
        }
    }
    law_written_path_reads(steps);
    assert(written_steps(steps) =~= t.step_texts(line));
    assert(read_steps(steps) =~= steps_to(t, n)) by {
        assert forall|i: int| 0 <= i < steps.len() implies read_steps(steps)[i] == steps_to(
            t,
            n,
        )[i] by {
            assert(read_step(steps[i]) == step_to(t, line[i]));
        }
    }
}

/// The address of an element leads to that element and to no other, where it
/// is read as it is written.
pub proof fn law_address_leads_to_its_node(t: Tree, root: NodeId, n: NodeId, env: Surroundings)
    requires
        t.hangs_together(root),
        t.nodes.len() < EXACT,
        t.visit(root, false).contains(n),
        reads_as_written(t, n),
    ensures
        nodes_for(t.address_of(n), t, env) == seq![n],
{
    let steps = steps_to(t, n);
    assert(t.has(root));
    lemma_visited(t, root, root, n);
    lemma_line(t, root, n);
    let line = line_to(t, n);
    assert(steps[0] == step_to(t, line[0]));
    lemma_led(t, root, n, 0, env);
    assert(filtered(seq![root], steps[0].predicates, 0, t, env) == Ok::<Seq<NodeId>, Seq<char>>(
        seq![root],
    ));
    let found = seq![n];
    assert(found.drop_last() == Seq::<NodeId>::empty());
    reveal_with_fuel(present, 2);
    assert(present(t, found) == found);
}

} // verus!
