//! The order in which calculations run.

use crate::parser::ast::Expr;
use crate::rules::binding::{binding_models, Binding, BindingModel};
use crate::rules::paths::{read_by, referenced_paths};
use crate::text::{cat4, join, joined, same, texts};
use vstd::prelude::*;

verus! {

/// The last binding of a path among the first `n`.
pub open spec fn last_bound(bindings: Seq<BindingModel>, path: Seq<char>, n: int) -> Option<int>
    decreases n,
{
    if n <= 0 {
        None
    } else if bindings[n - 1].path == path {
        Some(n - 1)
    } else {
        last_bound(bindings, path, n - 1)
    }
}

/// Whether the calculation of binding `i` reads the calculation of binding
/// `j`.
pub open spec fn depends(bindings: Seq<BindingModel>, i: int, j: int) -> bool {
    &&& i != j
    &&& bindings[j].calculate is Some
    &&& bindings[i].calculate matches Some(e) && exists|k: int|
        #![trigger read_by(e, bindings[i].path)[k]]
        0 <= k < read_by(e, bindings[i].path).len() && last_bound(
            bindings,
            read_by(e, bindings[i].path)[k],
            bindings.len() as int,
        ) == Some(j)
}

/// The calculations that binding `i` reads, from `j` on.
pub open spec fn read_from(bindings: Seq<BindingModel>, i: int, j: int) -> Seq<int>
    decreases bindings.len() - j,
{
    if j < 0 || j >= bindings.len() {
        Seq::empty()
    } else if depends(bindings, i, j) {
        seq![j] + read_from(bindings, i, j + 1)
    } else {
        read_from(bindings, i, j + 1)
    }
}

/// For each binding the calculations it reads.
pub open spec fn reads(bindings: Seq<BindingModel>) -> Seq<Seq<int>> {
    Seq::new(bindings.len(), |i: int| read_from(bindings, i, 0))
}

pub open spec fn paths_of(bindings: Seq<BindingModel>) -> Seq<Seq<char>> {
    Seq::new(bindings.len(), |i: int| bindings[i].path)
}

#[derive(Debug, Clone, Copy, PartialEq, Eq, Structural)]
pub enum Mark {
    New,
    Open,
    Done,
}

/// A sort under way.
#[verifier::ext_equal]
pub struct Sorting {
    pub marks: Seq<Mark>,
    pub order: Seq<int>,
    /// The bindings that are being visited, each read by the one before it.
    pub trail: Seq<int>,
}

pub open spec fn new_marks(marks: Seq<Mark>) -> nat
    decreases marks.len(),
{
    if marks.len() == 0 {
        0
    } else {
        new_marks(marks.drop_last()) + if marks.last() == Mark::New {
            1nat
        } else {
            0
        }
    }
}

pub open spec fn index_in(s: Seq<int>, n: int, i: int) -> int
    decreases s.len() - i,
{
    if i < 0 || i >= s.len() {
        0
    } else if s[i] == n {
        i
    } else {
        index_in(s, n, i + 1)
    }
}

pub const CIRCLE: &'static str =
    "these calculations depend on each other, so none of them has a defined value: ";

pub open spec fn names_at(paths: Seq<Seq<char>>, s: Seq<int>) -> Seq<Seq<char>> {
    Seq::new(s.len(), |k: int| paths[s[k]])
}

/// What is said of a circle that a trail runs into at `i`.
pub open spec fn circle_text(paths: Seq<Seq<char>>, trail: Seq<int>, i: int) -> Seq<char> {
    CIRCLE@ + join(names_at(paths, trail.skip(index_in(trail, i, 0))), " → "@) + " → "@ + paths[i]
}

pub proof fn lemma_marked(marks: Seq<Mark>, i: int, m: Mark)
    requires
        0 <= i < marks.len(),
    ensures
        new_marks(marks.update(i, m)) == new_marks(marks) - (if marks[i] == Mark::New {
            1int
        } else {
            0
        }) + (if m == Mark::New {
            1int
        } else {
            0
        }),
    decreases marks.len(),
{
    let t = marks.update(i, m);
    if i < marks.len() - 1 {
        lemma_marked(marks.drop_last(), i, m);
        assert(t.drop_last() == marks.drop_last().update(i, m));
    } else {
        assert(t.drop_last() == marks.drop_last());
    }
}

/// A binding visited: those it reads first, and then itself.
pub open spec fn visit(g: Seq<Seq<int>>, paths: Seq<Seq<char>>, i: int, s: Sorting) -> Result<
    Sorting,
    Seq<char>,
>
    decreases new_marks(s.marks), 0nat,
{
    if !(0 <= i < s.marks.len()) || s.marks[i] == Mark::Done {
        Ok(s)
    } else if s.marks[i] == Mark::Open {
        Err(circle_text(paths, s.trail, i))
    } else {
        let opened = Sorting {
            marks: s.marks.update(i, Mark::Open),
            trail: s.trail.push(i),
            ..s
        };
        proof {
            lemma_marked(s.marks, i, Mark::Open);
        }
        match visit_all(g, paths, g[i], 0, opened) {
            Err(e) => Err(e),
            Ok(after) => Ok(
                Sorting {
                    marks: after.marks.update(i, Mark::Done),
                    order: after.order.push(i),
                    trail: after.trail.drop_last(),
                },
            ),
        }
    }
}

/// Bindings visited one after another, from the one at `k` on.
pub open spec fn visit_all(
    g: Seq<Seq<int>>,
    paths: Seq<Seq<char>>,
    list: Seq<int>,
    k: int,
    s: Sorting,
) -> Result<Sorting, Seq<char>>
    decreases new_marks(s.marks), 1 + list.len() - k,
{
    if k < 0 || k >= list.len() {
        Ok(s)
    } else {
        match visit(g, paths, list[k], s) {
            Err(e) => Err(e),
            Ok(next) => if new_marks(next.marks) <= new_marks(s.marks) {
                visit_all(g, paths, list, k + 1, next)
            } else {
                Ok(next)
            },
        }
    }
}

/// The bindings with a calculation, from `i` on.
pub open spec fn calculations(bindings: Seq<BindingModel>, i: int) -> Seq<int>
    decreases bindings.len() - i,
{
    if i < 0 || i >= bindings.len() {
        Seq::empty()
    } else if bindings[i].calculate is Some {
        seq![i] + calculations(bindings, i + 1)
    } else {
        calculations(bindings, i + 1)
    }
}

pub open spec fn unsorted(n: nat) -> Sorting {
    Sorting { marks: Seq::new(n, |i: int| Mark::New), order: Seq::empty(), trail: Seq::empty() }
}

/// The order in which each calculation runs after what it reads. A circle is
/// an error rather than an iteration limit: a form whose calculations feed
/// each other has no defined answer, and picking one by stopping after N
/// rounds would make the result depend on N.
pub open spec fn ordering(bindings: Seq<BindingModel>) -> Result<Seq<int>, Seq<char>> {
    match visit_all(
        reads(bindings),
        paths_of(bindings),
        calculations(bindings, 0),
        0,
        unsorted(bindings.len()),
    ) {
        Err(e) => Err(e),
        Ok(s) => Ok(s.order),
    }
}

// ---------------------------------------------------------------------------
// What the order keeps
// ---------------------------------------------------------------------------

/// Whether every list of a graph leads into it.
pub open spec fn closed_graph(g: Seq<Seq<int>>) -> bool {
    forall|i: int, k: int|
        0 <= i < g.len() && 0 <= k < g[i].len() ==> 0 <= #[trigger] g[i][k] < g.len()
}

/// Whether a list comes after all that its members read.
pub open spec fn after_reads(g: Seq<Seq<int>>, order: Seq<int>) -> bool {
    forall|a: int, k: int|
        0 <= a < order.len() && 0 <= k < g[order[a]].len() ==> order.take(a).contains(
            #[trigger] g[order[a]][k],
        )
}

/// What holds of a sort at every moment.
pub open spec fn consistent(g: Seq<Seq<int>>, s: Sorting) -> bool {
    &&& s.marks.len() == g.len()
    &&& forall|a: int| 0 <= a < s.order.len() ==> 0 <= #[trigger] s.order[a] < g.len()
    &&& forall|i: int|
        0 <= i < g.len() ==> (#[trigger] s.marks[i] == Mark::Done <==> s.order.contains(i))
    &&& s.order.no_duplicates()
    &&& after_reads(g, s.order)
    &&& forall|a: int| 0 <= a < s.trail.len() ==> 0 <= #[trigger] s.trail[a] < g.len()
    &&& forall|i: int|
        0 <= i < g.len() ==> (#[trigger] s.marks[i] == Mark::Open <==> s.trail.contains(i))
    &&& forall|a: int|
        0 <= a < s.trail.len() - 1 ==> g[#[trigger] s.trail[a]].contains(s.trail[a + 1])
}

/// Whether a list is a circle of bindings, each reading the next and the
/// last reading the first.
pub open spec fn is_circle(g: Seq<Seq<int>>, c: Seq<int>) -> bool {
    &&& c.len() > 0
    &&& forall|a: int| 0 <= a < c.len() ==> 0 <= #[trigger] c[a] < g.len()
    &&& forall|a: int| 0 <= a < c.len() - 1 ==> g[#[trigger] c[a]].contains(c[a + 1])
    &&& g[c.last()].contains(c[0])
}

/// What is said of a circle: its members by their paths, and the first once
/// more.
pub open spec fn told(paths: Seq<Seq<char>>, c: Seq<int>) -> Seq<char> {
    CIRCLE@ + join(names_at(paths, c), " → "@) + " → "@ + paths[c[0]]
}

spec fn tells_circle(g: Seq<Seq<int>>, paths: Seq<Seq<char>>, e: Seq<char>) -> bool {
    exists|c: Seq<int>| is_circle(g, c) && e == told(paths, c)
}

proof fn lemma_index_in(s: Seq<int>, n: int, i: int)
    requires
        0 <= i,
        exists|k: int| i <= k < s.len() && s[k] == n,
    ensures
        i <= index_in(s, n, i) < s.len(),
        s[index_in(s, n, i)] == n,
    decreases s.len() - i,
{
    if s[i] != n {
        lemma_index_in(s, n, i + 1);
    }
}

proof fn lemma_visit(g: Seq<Seq<int>>, paths: Seq<Seq<char>>, i: int, s: Sorting)
    requires
        closed_graph(g),
        consistent(g, s),
        0 <= i < g.len(),
        s.trail.len() > 0 ==> g[s.trail.last()].contains(i),
    ensures
        match visit(g, paths, i, s) {
            Ok(next) => consistent(g, next) && next.trail == s.trail && next.marks[i] == Mark::Done
                && new_marks(next.marks) <= new_marks(s.marks) && (forall|j: int|
                0 <= j < g.len() && s.marks[j] == Mark::Done ==> #[trigger] next.marks[j]
                    == Mark::Done) && (forall|j: int|
                #[trigger] next.order.contains(j) ==> s.order.contains(j) || 0 <= j < g.len()),
            Err(e) => tells_circle(g, paths, e),
        },
    decreases new_marks(s.marks), 0nat,
{
    if s.marks[i] == Mark::Done {
    } else if s.marks[i] == Mark::Open {
        assert(s.trail.contains(i));
        let a = index_in(s.trail, i, 0);
        lemma_index_in(s.trail, i, 0);
        let c = s.trail.skip(a);
        assert(c[0] == i);
        assert(c.last() == s.trail.last());
        assert forall|b: int| 0 <= b < c.len() implies 0 <= #[trigger] c[b] < g.len() by {
            assert(c[b] == s.trail[a + b]);
        }
        assert forall|b: int| 0 <= b < c.len() - 1 implies g[#[trigger] c[b]].contains(
            c[b + 1],
        ) by {
            assert(c[b] == s.trail[a + b]);
            assert(c[b + 1] == s.trail[a + b + 1]);
        }
        assert(is_circle(g, c));
        assert(circle_text(paths, s.trail, i) == told(paths, c));
    } else {
        let opened = Sorting {
            marks: s.marks.update(i, Mark::Open),
            trail: s.trail.push(i),
            ..s
        };
        lemma_marked(s.marks, i, Mark::Open);
        assert(!s.trail.contains(i));
        assert(!s.order.contains(i));
        assert(consistent(g, opened)) by {
            assert forall|j: int| 0 <= j < g.len() implies (#[trigger] opened.marks[j] == Mark::Open
                <==> opened.trail.contains(j)) by {
                if j == i {
                    assert(opened.trail[opened.trail.len() - 1] == i);
                } else {
                    assert(opened.marks[j] == s.marks[j]);
                    if s.trail.contains(j) {
                        let a = choose|a: int| 0 <= a < s.trail.len() && s.trail[a] == j;
                        assert(opened.trail[a] == j);
                    }
                    if opened.trail.contains(j) {
                        let a = choose|a: int|
                            0 <= a < opened.trail.len() && opened.trail[a] == j;
                        assert(s.trail[a] == j);
                    }
                }
            }
            assert forall|j: int| 0 <= j < g.len() implies (#[trigger] opened.marks[j] == Mark::Done
                <==> opened.order.contains(j)) by {
                if j != i {
                    assert(opened.marks[j] == s.marks[j]);
                }
            }
            assert forall|a: int| 0 <= a < opened.trail.len() - 1 implies g[#[trigger] opened.trail[a]].contains(opened.trail[a + 1]) by {
                assert(opened.trail[a] == s.trail[a]);
                if a + 1 < s.trail.len() {
                    assert(opened.trail[a + 1] == s.trail[a + 1]);
                }
            }
        }
        assert(g[i].skip(0) == g[i]);
        lemma_visit_all(g, paths, g[i], 0, opened, i);
        if let Ok(after) = visit_all(g, paths, g[i], 0, opened) {
            let done = Sorting {
                marks: after.marks.update(i, Mark::Done),
                order: after.order.push(i),
                trail: after.trail.drop_last(),
            };
            lemma_marked(after.marks, i, Mark::Done);
            assert(after.trail == opened.trail);
            assert(done.trail == s.trail);
            assert(after.trail[after.trail.len() - 1] == i);
            assert(after.trail.contains(i));
            assert(after.marks[i] == Mark::Open);
            assert(!after.order.contains(i));
            assert(consistent(g, done)) by {
                assert forall|j: int| 0 <= j < g.len() implies (#[trigger] done.marks[j]
                    == Mark::Done <==> done.order.contains(j)) by {
                    if j == i {
                        assert(done.order[done.order.len() - 1] == i);
                    } else {
                        assert(done.marks[j] == after.marks[j]);
                        if after.order.contains(j) {
                            let a = choose|a: int|
                                0 <= a < after.order.len() && after.order[a] == j;
                            assert(done.order[a] == j);
                        }
                        if done.order.contains(j) {
                            let a = choose|a: int| 0 <= a < done.order.len() && done.order[a] == j;
                            assert(after.order[a] == j);
                        }
                    }
                }
                assert forall|j: int| 0 <= j < g.len() implies (#[trigger] done.marks[j]
                    == Mark::Open <==> done.trail.contains(j)) by {
                    if j != i {
                        assert(done.marks[j] == after.marks[j]);
                        if after.trail.contains(j) {
                            let a = choose|a: int|
                                0 <= a < after.trail.len() && after.trail[a] == j;
                            assert(done.trail[a] == j);
                        }
                        if done.trail.contains(j) {
                            let a = choose|a: int| 0 <= a < done.trail.len() && done.trail[a] == j;
                            assert(after.trail[a] == j);
                        }
                    }
                }
                assert forall|a: int, k: int|
                    0 <= a < done.order.len() && 0 <= k < g[done.order[a]].len() implies done.order.take(
                    a,
                ).contains(#[trigger] g[done.order[a]][k]) by {
                    assert(done.order.take(a) == after.order.take(a));
                    if a < after.order.len() {
                        assert(done.order[a] == after.order[a]);
                        assert(after.order.take(a).contains(g[after.order[a]][k]));
                    } else {
                        assert(done.order[a] == i);
                        assert(after.marks[g[i][k]] == Mark::Done);
                        assert(after.order.take(a) == after.order);
                    }
                }
                assert forall|a: int| 0 <= a < done.trail.len() - 1 implies g[#[trigger] done.trail[a]].contains(done.trail[a + 1]) by {
                    assert(done.trail[a] == s.trail[a]);
                    assert(done.trail[a + 1] == s.trail[a + 1]);
                }
            }
            assert forall|j: int| 0 <= j < g.len() && s.marks[j] == Mark::Done implies
                #[trigger] done.marks[j] == Mark::Done by {
                assert(opened.marks[j] == Mark::Done);
            }
            assert forall|j: int| #[trigger] done.order.contains(j) implies s.order.contains(j) || 0
                <= j < g.len() by {
                let a = choose|a: int| 0 <= a < done.order.len() && done.order[a] == j;
            }
        }
    }
}

proof fn lemma_visit_all(
    g: Seq<Seq<int>>,
    paths: Seq<Seq<char>>,
    list: Seq<int>,
    k: int,
    s: Sorting,
    from: int,
)
    requires
        closed_graph(g),
        consistent(g, s),
        0 <= k <= list.len(),
        forall|j: int| 0 <= j < list.len() ==> 0 <= #[trigger] list[j] < g.len(),
        s.trail.len() > 0 ==> s.trail.last() == from && list == g[from],
        forall|j: int| 0 <= j < k ==> s.marks[#[trigger] list[j]] == Mark::Done,
    ensures
        match visit_all(g, paths, list, k, s) {
            Ok(next) => consistent(g, next) && next.trail == s.trail && new_marks(next.marks)
                <= new_marks(s.marks) && (forall|j: int|
                0 <= j < list.len() ==> next.marks[#[trigger] list[j]] == Mark::Done) && (forall|
                j: int,
            |
                0 <= j < g.len() && s.marks[j] == Mark::Done ==> #[trigger] next.marks[j]
                    == Mark::Done),
            Err(e) => tells_circle(g, paths, e),
        },
    decreases new_marks(s.marks), 1 + list.len() - k,
{
    if k < list.len() {
        assert(s.trail.len() > 0 ==> g[s.trail.last()].contains(list[k]));
        lemma_visit(g, paths, list[k], s);
        if let Ok(next) = visit(g, paths, list[k], s) {
            lemma_visit_all(g, paths, list, k + 1, next, from);
        }
    }
}

proof fn lemma_read_from(bindings: Seq<BindingModel>, i: int, j: int)
    requires
        0 <= j,
    ensures
        forall|k: int|
            0 <= k < read_from(bindings, i, j).len() ==> j <= #[trigger] read_from(
                bindings,
                i,
                j,
            )[k] < bindings.len() && depends(bindings, i, read_from(bindings, i, j)[k]),
        forall|m: int|
            j <= m < bindings.len() && depends(bindings, i, m) ==> read_from(
                bindings,
                i,
                j,
            ).contains(m),
    decreases bindings.len() - j,
{
    if j < bindings.len() {
        lemma_read_from(bindings, i, j + 1);
        let rest = read_from(bindings, i, j + 1);
        let all = read_from(bindings, i, j);
        if depends(bindings, i, j) {
            assert forall|k: int| 0 <= k < all.len() implies j <= #[trigger] all[k]
                < bindings.len() && depends(bindings, i, all[k]) by {
                if k > 0 {
                    assert(all[k] == rest[k - 1]);
                }
            }
            assert forall|m: int|
                j <= m < bindings.len() && depends(bindings, i, m) implies all.contains(m) by {
                if m == j {
                    assert(all[0] == j);
                } else {
                    let k = choose|k: int| 0 <= k < rest.len() && rest[k] == m;
                    assert(all[k + 1] == m);
                }
            }
        }
    }
}

proof fn lemma_calculations(bindings: Seq<BindingModel>, i: int)
    requires
        0 <= i,
    ensures
        forall|k: int|
            0 <= k < calculations(bindings, i).len() ==> i <= #[trigger] calculations(
                bindings,
                i,
            )[k] < bindings.len() && bindings[calculations(bindings, i)[k]].calculate is Some,
        forall|m: int|
            i <= m < bindings.len() && (#[trigger] bindings[m]).calculate is Some ==> calculations(
                bindings,
                i,
            ).contains(m),
    decreases bindings.len() - i,
{
    if i < bindings.len() {
        lemma_calculations(bindings, i + 1);
        let rest = calculations(bindings, i + 1);
        let all = calculations(bindings, i);
        if bindings[i].calculate is Some {
            assert forall|k: int| 0 <= k < all.len() implies i <= #[trigger] all[k]
                < bindings.len() && bindings[all[k]].calculate is Some by {
                if k > 0 {
                    assert(all[k] == rest[k - 1]);
                }
            }
            assert forall|m: int|
                i <= m < bindings.len() && (#[trigger] bindings[m]).calculate is Some implies all.contains(
            m) by {
                if m == i {
                    assert(all[0] == i);
                } else {
                    let k = choose|k: int| 0 <= k < rest.len() && rest[k] == m;
                    assert(all[k + 1] == m);
                }
            }
        }
    }
}

proof fn lemma_start(bindings: Seq<BindingModel>)
    ensures
        closed_graph(reads(bindings)),
        consistent(reads(bindings), unsorted(bindings.len())),
        forall|k: int|
            0 <= k < calculations(bindings, 0).len() ==> 0 <= #[trigger] calculations(
                bindings,
                0,
            )[k] < bindings.len(),
{
    let g = reads(bindings);
    assert forall|i: int, k: int| 0 <= i < g.len() && 0 <= k < g[i].len() implies 0
        <= #[trigger] g[i][k] < g.len() by {
        lemma_read_from(bindings, i, 0);
        assert(g[i] == read_from(bindings, i, 0));
    }
    lemma_calculations(bindings, 0);
}

/// Every calculation runs once, and after all the calculations it reads.
pub proof fn law_order_respects_dependencies(bindings: Seq<BindingModel>)
    requires
        ordering(bindings) is Ok,
    ensures
        ordering(bindings)->Ok_0.no_duplicates(),
        forall|i: int|
            0 <= i < bindings.len() && (#[trigger] bindings[i]).calculate is Some ==> ordering(
                bindings,
            )->Ok_0.contains(i),
        forall|a: int, j: int|
            #![trigger depends(bindings, ordering(bindings)->Ok_0[a], j)]
            0 <= a < ordering(bindings)->Ok_0.len() && 0 <= j < bindings.len() && depends(
                bindings,
                ordering(bindings)->Ok_0[a],
                j,
            ) ==> ordering(bindings)->Ok_0.take(a).contains(j),
        forall|a: int|
            0 <= a < ordering(bindings)->Ok_0.len() ==> 0 <= #[trigger] ordering(bindings)->Ok_0[a]
                < bindings.len(),
{
    let g = reads(bindings);
    let list = calculations(bindings, 0);
    let s = unsorted(bindings.len());
    lemma_start(bindings);
    lemma_visit_all(g, paths_of(bindings), list, 0, s, 0);
    let end = visit_all(g, paths_of(bindings), list, 0, s)->Ok_0;
    let order = end.order;
    lemma_calculations(bindings, 0);
    assert forall|i: int|
        0 <= i < bindings.len() && (#[trigger] bindings[i]).calculate is Some implies order.contains(
    i) by {
        assert(list.contains(i));
        let k = choose|k: int| 0 <= k < list.len() && list[k] == i;
        assert(end.marks[list[k]] == Mark::Done);
    }
    assert forall|a: int, j: int|
        #![trigger depends(bindings, order[a], j)]
        0 <= a < order.len() && 0 <= j < bindings.len() && depends(
            bindings,
            order[a],
            j,
        ) implies order.take(a).contains(j) by {
        let i = order[a];
        lemma_read_from(bindings, i, 0);
        assert(g[i] == read_from(bindings, i, 0));
        let k = choose|k: int| 0 <= k < g[i].len() && g[i][k] == j;
        assert(order.take(a).contains(g[order[a]][k]));
    }
}

/// Calculations are refused exactly where some of them read each other in a
/// circle, and the refusal names the members of such a circle by their
/// paths, each before the one it reads.
pub proof fn law_refused_only_for_a_circle(bindings: Seq<BindingModel>)
    ensures
        ordering(bindings) is Err <==> calculations_in_circle(bindings),
        ordering(bindings) matches Err(e) ==> exists|c: Seq<int>|
            #[trigger] is_dependency_circle(bindings, c) && e == told(paths_of(bindings), c),
{
    let g = reads(bindings);
    let list = calculations(bindings, 0);
    let s = unsorted(bindings.len());
    lemma_start(bindings);
    lemma_visit_all(g, paths_of(bindings), list, 0, s, 0);
    if ordering(bindings) is Err {
        let e = ordering(bindings)->Err_0;
        let c = choose|c: Seq<int>| is_circle(g, c) && e == told(paths_of(bindings), c);
        lemma_circle_of_reads(bindings, c);
    } else if calculations_in_circle(bindings) {
        let c = choose|c: Seq<int>| is_dependency_circle(bindings, c);
        let order = ordering(bindings)->Ok_0;
        law_order_respects_dependencies(bindings);
        lemma_no_circle(bindings, c, order);
    }
}

/// Whether a list is a circle of calculations, each reading the next and the
/// last reading the first.
pub open spec fn is_dependency_circle(bindings: Seq<BindingModel>, c: Seq<int>) -> bool {
    &&& c.len() > 0
    &&& forall|a: int| 0 <= a < c.len() ==> 0 <= #[trigger] c[a] < bindings.len()
    &&& forall|a: int| 0 <= a < c.len() - 1 ==> depends(bindings, #[trigger] c[a], c[a + 1])
    &&& depends(bindings, c.last(), c[0])
}

pub open spec fn calculations_in_circle(bindings: Seq<BindingModel>) -> bool {
    exists|c: Seq<int>| is_dependency_circle(bindings, c)
}

proof fn lemma_circle_of_reads(bindings: Seq<BindingModel>, c: Seq<int>)
    requires
        is_circle(reads(bindings), c),
    ensures
        is_dependency_circle(bindings, c),
{
    let g = reads(bindings);
    assert forall|a: int| 0 <= a < c.len() - 1 implies depends(
        bindings,
        #[trigger] c[a],
        c[a + 1],
    ) by {
        lemma_read_from(bindings, c[a], 0);
        assert(g[c[a]] == read_from(bindings, c[a], 0));
        let k = choose|k: int| 0 <= k < g[c[a]].len() && g[c[a]][k] == c[a + 1];
    }
    let z = c.last();
    assert(z == c[c.len() - 1]);
    lemma_read_from(bindings, z, 0);
    assert(g[z] == read_from(bindings, z, 0));
    let k = choose|k: int| 0 <= k < g[z].len() && g[z][k] == c[0];
}

/// Where a member of the order stands.
spec fn stand(order: Seq<int>, i: int) -> int {
    choose|a: int| 0 <= a < order.len() && order[a] == i
}

proof fn lemma_no_circle(bindings: Seq<BindingModel>, c: Seq<int>, order: Seq<int>)
    requires
        ordering(bindings) == Ok::<Seq<int>, Seq<char>>(order),
    ensures
        !is_dependency_circle(bindings, c),
{
    law_order_respects_dependencies(bindings);
    if is_dependency_circle(bindings, c) {
        assert forall|a: int| 0 <= a < c.len() implies order.contains(#[trigger] c[a]) by {
            if a < c.len() - 1 {
                assert(depends(bindings, c[a], c[a + 1]));
            } else {
                assert(depends(bindings, c.last(), c[0]));
            }
            assert(bindings[c[a]].calculate is Some);
        }
        // each member stands after the next, so the first stands after the last
        lemma_descent(bindings, c, order, c.len() - 1);
        let z = c.last();
        assert(z == c[c.len() - 1]);
        assert(order.contains(z));
        assert(order.contains(c[0]));
        let a = stand(order, z);
        assert(depends(bindings, order[a], c[0]));
        assert(order.take(a).contains(c[0]));
        let b = choose|b: int| 0 <= b < order.take(a).len() && order.take(a)[b] == c[0];
        assert(order[b] == c[0]);
        let d = stand(order, c[0]);
        assert(order[d] == c[0]);
        assert(b == d);
    }
}

proof fn lemma_descent(bindings: Seq<BindingModel>, c: Seq<int>, order: Seq<int>, k: int)
    requires
        is_dependency_circle(bindings, c),
        ordering(bindings) == Ok::<Seq<int>, Seq<char>>(order),
        0 <= k < c.len(),
        forall|a: int| 0 <= a < c.len() ==> order.contains(#[trigger] c[a]),
    ensures
        stand(order, c[k]) <= stand(order, c[0]),
    decreases k,
{
    law_order_respects_dependencies(bindings);
    if k > 0 {
        lemma_descent(bindings, c, order, k - 1);
        assert(depends(bindings, c[k - 1], c[k]));
        assert(order.contains(c[k - 1]));
        assert(order.contains(c[k]));
        let a = stand(order, c[k - 1]);
        assert(depends(bindings, order[a], c[k]));
        assert(order.take(a).contains(c[k]));
        let b = choose|b: int| 0 <= b < order.take(a).len() && order.take(a)[b] == c[k];
        assert(order[b] == c[k]);
        let d = stand(order, c[k]);
        assert(order[d] == c[k]);
        assert(b == d);
    }
}

// ---------------------------------------------------------------------------
// Sorting
// ---------------------------------------------------------------------------

pub open spec fn ints(v: Seq<usize>) -> Seq<int> {
    Seq::new(v.len(), |i: int| v[i] as int)
}

pub open spec fn graph(v: Seq<Vec<usize>>) -> Seq<Seq<int>> {
    Seq::new(v.len(), |i: int| ints(v[i]@))
}

fn last_bound_of(bindings: &Vec<Binding>, path: &str) -> (r: Option<usize>)
    ensures
        crate::text::as_int(r) == last_bound(
            binding_models(bindings@),
            path@,
            bindings@.len() as int,
        ),
{
    let ghost m = binding_models(bindings@);
    let mut n: usize = bindings.len();
    while n > 0
        invariant
            m == binding_models(bindings@),
            n <= bindings@.len(),
            last_bound(m, path@, bindings@.len() as int) == last_bound(m, path@, n as int),
        decreases n,
    {
        if same(bindings[n - 1].path.as_str(), path) {
            return Some(n - 1);
        }
        n = n - 1;
    }
    None
}

/// The bindings whose value a calculation reads, in the order it reads them.
fn targets(bindings: &Vec<Binding>, calculate: &Expr, path: &str) -> (r: Vec<Option<usize>>)
    ensures
        r@.len() == read_by(calculate@, path@).len(),
        forall|k: int|
            0 <= k < r@.len() ==> crate::text::as_int(#[trigger] r@[k]) == last_bound(
                binding_models(bindings@),
                read_by(calculate@, path@)[k],
                bindings@.len() as int,
            ),
{
    let list = referenced_paths(calculate, path);
    let mut out: Vec<Option<usize>> = Vec::new();
    let n = list.len();
    assert(texts(list@).len() == n);
    for k in 0..n
        invariant
            n == list@.len(),
            texts(list@) == read_by(calculate@, path@),
            out@.len() == k,
            forall|j: int|
                0 <= j < k ==> crate::text::as_int(#[trigger] out@[j]) == last_bound(
                    binding_models(bindings@),
                    read_by(calculate@, path@)[j],
                    bindings@.len() as int,
                ),
    {
        assert(texts(list@)[k as int] == list@[k as int]@);
        out.push(last_bound_of(bindings, list[k].as_str()));
    }
    out
}

fn reads_of(bindings: &Vec<Binding>, i: usize) -> (r: Vec<usize>)
    requires
        i < bindings@.len(),
    ensures
        ints(r@) == read_from(binding_models(bindings@), i as int, 0),
{
    let ghost m = binding_models(bindings@);
    let mut out: Vec<usize> = Vec::new();
    let found: Vec<Option<usize>> = match &bindings[i].calculate {
        Some(e) => targets(bindings, e, bindings[i].path.as_str()),
        None => Vec::new(),
    };
    let calculates = bindings[i].calculate.is_some();
    let n = bindings.len();
    assert(ints(out@) == Seq::<int>::empty());
    assert(Seq::<int>::empty() + read_from(m, i as int, 0) == read_from(m, i as int, 0));
    for j in 0..n
        invariant
            n == bindings@.len(),
            i < n,
            m == binding_models(bindings@),
            calculates == (m[i as int].calculate is Some),
            m[i as int].calculate matches Some(e) ==> {
                &&& found@.len() == read_by(e, m[i as int].path).len()
                &&& forall|k: int|
                    0 <= k < found@.len() ==> crate::text::as_int(#[trigger] found@[k])
                        == last_bound(m, read_by(e, m[i as int].path)[k], n as int)
            },
            ints(out@) + read_from(m, i as int, j as int) == read_from(m, i as int, 0),
    {
        let mut reads_j = false;
        if calculates && j != i && bindings[j].calculate.is_some() {
            let len = found.len();
            let ghost e = m[i as int].calculate->0;
            let mut k: usize = 0;
            while k < len && !reads_j
                invariant
                    len == found@.len(),
                    k <= len,
                    m[i as int].calculate == Some(e),
                    len == read_by(e, m[i as int].path).len(),
                    n == m.len(),
                    j != i,
                    i < n,
                    j < n,
                    m[j as int].calculate is Some,
                    forall|h: int|
                        0 <= h < len ==> crate::text::as_int(#[trigger] found@[h]) == last_bound(
                            m,
                            read_by(e, m[i as int].path)[h],
                            n as int,
                        ),
                    reads_j ==> depends(m, i as int, j as int),
                    !reads_j ==> forall|h: int|
                        0 <= h < k ==> last_bound(
                            m,
                            #[trigger] read_by(e, m[i as int].path)[h],
                            n as int,
                        ) != Some(j as int),
                decreases len - k,
            {
                assert(crate::text::as_int(found@[k as int]) == last_bound(
                    m,
                    read_by(e, m[i as int].path)[k as int],
                    n as int,
                ));
                if let Some(t) = found[k] {
                    if t == j {
                        reads_j = true;
                        assert(depends(m, i as int, j as int));
                    }
                }
                k = k + 1;
            }
        }
        assert(reads_j == depends(m, i as int, j as int));
        let ghost was = out@;
        if reads_j {
            out.push(j);
            assert(ints(out@) == ints(was).push(j as int));
            assert(ints(was) + (seq![j as int] + read_from(m, i as int, j + 1)) == ints(out@)
                + read_from(m, i as int, j + 1));
        }
    }
    assert(ints(out@) + Seq::<int>::empty() == ints(out@));
    out
}

/// A sort under way.
struct Sorter {
    marks: Vec<Mark>,
    order: Vec<usize>,
    trail: Vec<usize>,
}

impl View for Sorter {
    type V = Sorting;

    closed spec fn view(&self) -> Sorting {
        Sorting { marks: self.marks@, order: ints(self.order@), trail: ints(self.trail@) }
    }
}

fn index_of(s: &Vec<usize>, n: usize) -> (r: usize)
    ensures
        r == index_in(ints(s@), n as int, 0),
        r <= s@.len(),
{
    let len = s.len();
    for i in 0..len
        invariant
            len == s@.len(),
            index_in(ints(s@), n as int, 0) == index_in(ints(s@), n as int, i as int),
    {
        if s[i] == n {
            return i;
        }
    }
    0
}

fn circle(bindings: &Vec<Binding>, trail: &Vec<usize>, i: usize) -> (r: String)
    requires
        i < bindings@.len(),
        forall|k: int| 0 <= k < trail@.len() ==> #[trigger] trail@[k] < bindings@.len(),
    ensures
        r@ == circle_text(paths_of(binding_models(bindings@)), ints(trail@), i as int),
{
    let ghost paths = paths_of(binding_models(bindings@));
    let start = index_of(trail, i);
    let ghost rest = ints(trail@).skip(start as int);
    let mut names: Vec<String> = Vec::new();
    let n = trail.len();
    let mut k: usize = start;
    assert(texts(names@) == names_at(paths, rest).take(0));
    while k < n
        invariant
            n == trail@.len(),
            start <= k <= n,
            paths == paths_of(binding_models(bindings@)),
            rest == ints(trail@).skip(start as int),
            forall|j: int| 0 <= j < n ==> #[trigger] trail@[j] < bindings@.len(),
            texts(names@) == names_at(paths, rest).take(k - start),
        decreases n - k,
    {
        let ghost was = names@;
        names.push(bindings[trail[k]].path.clone());
        proof {
            assert(rest[k - start] == trail@[k as int]);
            assert(texts(names@) == texts(was).push(names_at(paths, rest)[k - start]));
        }
        k = k + 1;
    }
    assert(texts(names@) == names_at(paths, rest));
    cat4(CIRCLE, joined(&names, " → ").as_str(), " → ", bindings[i].path.as_str())
}

impl Sorter {
    spec fn wf(&self, n: nat) -> bool {
        &&& self.marks@.len() == n
        &&& forall|k: int| 0 <= k < self.trail@.len() ==> #[trigger] self.trail@[k] < n
        &&& forall|k: int| 0 <= k < self.order@.len() ==> #[trigger] self.order@[k] < n
    }

    fn visit(&mut self, bindings: &Vec<Binding>, g: &Vec<Vec<usize>>, i: usize) -> (r: Result<
        (),
        String,
    >)
        requires
            g@.len() == bindings@.len(),
            closed_graph(graph(g@)),
            old(self).wf(g@.len()),
            i < g@.len(),
        ensures
            r is Ok ==> final(self).wf(g@.len()) && new_marks(final(self)@.marks) <= new_marks(
                old(self)@.marks,
            ) && final(self)@.trail == old(self)@.trail,
            match visit(graph(g@), paths_of(binding_models(bindings@)), i as int, old(self)@) {
                Ok(next) => r is Ok && final(self)@ == next,
                Err(e) => r matches Err(m) && m@ == e,
            },
        decreases new_marks(old(self)@.marks), 0nat,
    {
        let ghost before = self@;
        let ghost model = graph(g@);
        match self.marks[i] {
            Mark::Done => Ok(()),
            Mark::Open => Err(circle(bindings, &self.trail, i)),
            Mark::New => {
                proof {
                    lemma_marked(before.marks, i as int, Mark::Open);
                }
                let ghost trail = self.trail@;
                self.marks.set(i, Mark::Open);
                self.trail.push(i);
                proof {
                    assert(self@.trail == before.trail.push(i as int));
                    assert(self@ == Sorting {
                        marks: before.marks.update(i as int, Mark::Open),
                        trail: before.trail.push(i as int),
                        ..before
                    });
                    assert(model[i as int] == ints(g@[i as int]@));
                    assert forall|k: int| 0 <= k < g@[i as int]@.len() implies #[trigger] g@[i as int]@[k]
                        < g@.len() by {
                        assert(model[i as int][k] < model.len());
                    }
                }
                match self.visit_all(bindings, g, &g[i]) {
                    Err(e) => Err(e),
                    Ok(_) => {
                        let ghost after = self@;
                        let ghost list = self.trail@;
                        let ghost done = self.order@;
                        proof {
                            lemma_marked(after.marks, i as int, Mark::Done);
                            assert(after.trail.len() == before.trail.len() + 1);
                        }
                        let _ = self.trail.pop();
                        self.marks.set(i, Mark::Done);
                        self.order.push(i);
                        proof {
                            assert(self@.trail == after.trail.drop_last());
                            assert(self@.order == after.order.push(i as int));
                            assert(self@.trail == before.trail);
                        }
                        Ok(())
                    },
                }
            },
        }
    }

    fn visit_all(&mut self, bindings: &Vec<Binding>, g: &Vec<Vec<usize>>, list: &Vec<usize>) -> (r:
        Result<(), String>)
        requires
            g@.len() == bindings@.len(),
            closed_graph(graph(g@)),
            old(self).wf(g@.len()),
            forall|k: int| 0 <= k < list@.len() ==> #[trigger] list@[k] < g@.len(),
        ensures
            r is Ok ==> final(self).wf(g@.len()) && new_marks(final(self)@.marks) <= new_marks(
                old(self)@.marks,
            ) && final(self)@.trail == old(self)@.trail,
            match visit_all(
                graph(g@),
                paths_of(binding_models(bindings@)),
                ints(list@),
                0,
                old(self)@,
            ) {
                Ok(next) => r is Ok && final(self)@ == next,
                Err(e) => r matches Err(m) && m@ == e,
            },
        decreases new_marks(old(self)@.marks), 1nat,
    {
        let ghost before = self@;
        let ghost model = graph(g@);
        let ghost paths = paths_of(binding_models(bindings@));
        let ghost all = visit_all(model, paths, ints(list@), 0, before);
        let n = list.len();
        for k in 0..n
            invariant
                n == list@.len(),
                g@.len() == bindings@.len(),
                closed_graph(graph(g@)),
                model == graph(g@),
                paths == paths_of(binding_models(bindings@)),
                self.wf(g@.len()),
                before == old(self)@,
                self@.trail == before.trail,
                new_marks(self@.marks) <= new_marks(before.marks),
                forall|j: int| 0 <= j < n ==> #[trigger] list@[j] < g@.len(),
                all == visit_all(model, paths, ints(list@), 0, before),
                all == visit_all(model, paths, ints(list@), k as int, self@),
        {
            assert(list@[k as int] < g@.len());
            assert(ints(list@)[k as int] == list@[k as int]);
            match self.visit(bindings, g, list[k]) {
                Err(e) => {
                    return Err(e);
                },
                Ok(_) => {},
            }
        }
        Ok(())
    }
}

/// The order in which each calculation runs after what it reads.
pub(crate) fn sort(bindings: &Vec<Binding>) -> (r: Result<Vec<usize>, String>)
    ensures
        match ordering(binding_models(bindings@)) {
            Ok(order) => r matches Ok(v) && ints(v@) == order,
            Err(e) => r matches Err(m) && m@ == e,
        },
        r matches Ok(v) ==> forall|k: int|
            0 <= k < v@.len() ==> #[trigger] v@[k] < bindings@.len(),
{
    let ghost m = binding_models(bindings@);
    let n = bindings.len();
    let mut g: Vec<Vec<usize>> = Vec::new();
    let mut marks: Vec<Mark> = Vec::new();
    let mut list: Vec<usize> = Vec::new();
    proof {
        assert(ints(list@) == Seq::<int>::empty());
        assert(Seq::<int>::empty() + calculations(m, 0) == calculations(m, 0));
    }
    for i in 0..n
        invariant
            n == bindings@.len(),
            m == binding_models(bindings@),
            g@.len() == i,
            marks@.len() == i,
            forall|j: int| 0 <= j < i ==> ints((#[trigger] g@[j])@) == read_from(m, j, 0),
            forall|j: int| 0 <= j < i ==> #[trigger] marks@[j] == Mark::New,
            forall|j: int| 0 <= j < list@.len() ==> #[trigger] list@[j] < n,
            ints(list@) + calculations(m, i as int) == calculations(m, 0),
    {
        g.push(reads_of(bindings, i));
        marks.push(Mark::New);
        if bindings[i].calculate.is_some() {
            let ghost was = list@;
            list.push(i);
            proof {
                assert(ints(list@) == ints(was).push(i as int));
                assert(ints(was) + (seq![i as int] + calculations(m, i + 1)) == ints(list@)
                    + calculations(m, i + 1));
            }
        }
    }
    proof {
        assert(ints(list@) + Seq::<int>::empty() == ints(list@));
        lemma_start(m);
        assert(graph(g@) == reads(m));
    }
    let mut sorter = Sorter { marks, order: Vec::new(), trail: Vec::new() };
    proof {
        assert(sorter@ == unsorted(m.len()));
    }
    match sorter.visit_all(bindings, &g, &list) {
        Err(e) => Err(e),
        Ok(_) => Ok(sorter.order),
    }
}

} // verus!
