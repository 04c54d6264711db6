//! What a recompute reports.

use crate::eval::Surroundings;
use crate::rules::binding::{description, KindModel, ViolationModel};
use crate::rules::form::form_findings;
use crate::rules::live::{form_calculations, form_relevance, form_relevance_failures};
use crate::session::answers::{answer_at, answered, last_slash, named, node_at, rows_of};
use crate::session::{
    applied_from, counted_from, described, Applied, OutcomeModel, SessionModel, NOT_ALLOWED,
};
use crate::table::{
    in_key_order, law_keys_stay_in_order, law_lookup_after_entry, lookup, with_entry,
};
use crate::text::{in_class, lemma_span_back, span_back, Class};
use crate::tree::{NodeId, Tree};
use vstd::prelude::*;

verus! {

/// Whether a finding is one to report: it is not at a question that is not
/// asked.
pub open spec fn is_told(relevant: Seq<(Seq<char>, bool)>, v: ViolationModel) -> bool {
    lookup(relevant, v.node_path) != Some(false)
}

/// What is said of an answer that breaks its rule: the form's own words, or
/// that it is not allowed.
pub open spec fn is_complaint(v: ViolationModel, words: Seq<char>) -> bool {
    match v.message {
        Some(m) => words == m,
        None => words == "this answer is not allowed"@,
    }
}

proof fn lemma_pushed<T>(s: Seq<T>, last: T, x: T)
    ensures
        s.push(last).contains(x) <==> s.contains(x) || x == last,
{
    if s.push(last).contains(x) {
        let k = choose|k: int| 0 <= k < s.push(last).len() && s.push(last)[k] == x;
        if k < s.len() {
            assert(s[k] == x);
        }
    }
    if s.contains(x) {
        let k = choose|k: int| 0 <= k < s.len() && s[k] == x;
        assert(s.push(last)[k] == x);
    }
    assert(s.push(last)[s.len() as int] == last);
}

proof fn lemma_noted(
    o: OutcomeModel,
    s: Seq<ViolationModel>,
    k: int,
    path: Seq<char>,
    words: Seq<char>,
)
    requires
        0 <= k <= s.len(),
    ensures
        ({
            let r = o.noting_all(s, k);
            &&& r.relevant == o.relevant
            &&& r.calculated == o.calculated
            &&& r.missing.contains(path) <==> o.missing.contains(path) || exists|i: int|
                k <= i < s.len() && (#[trigger] s[i]).kind is Required && s[i].node_path == path
                    && is_told(o.relevant, s[i])
            &&& r.invalid.contains((path, words)) <==> o.invalid.contains((path, words))
                || exists|i: int|
                k <= i < s.len() && (#[trigger] s[i]).kind is Constraint && s[i].node_path == path
                    && is_complaint(s[i], words) && is_told(o.relevant, s[i])
            &&& r.failed.contains((path, words)) <==> o.failed.contains((path, words))
                || exists|i: int|
                k <= i < s.len() && (#[trigger] s[i]).kind == KindModel::Failed(words)
                    && s[i].node_path == path && is_told(o.relevant, s[i])
        }),
    decreases s.len() - k,
{
    if k < s.len() {
        let v = s[k];
        let next = o.noting(v);
        lemma_noted(next, s, k + 1, path, words);
        lemma_pushed(o.missing, v.node_path, path);
        let said = match v.message {
            Some(m) => m,
            None => NOT_ALLOWED@,
        };
        lemma_pushed(o.invalid, (v.node_path, said), (path, words));
        if let KindModel::Failed(why) = v.kind {
            lemma_pushed(o.failed, (v.node_path, why), (path, words));
        }
    }
}

/// A recompute says of the answers, once calculations have been applied,
/// which questions are asked; what is required and missing; what breaks its
/// rule, in the form's own words or in a few of its own; and what failed, be
/// it a calculation, a relevance rule or another. It says so of every finding
/// at a question that is asked, and of no other.
pub proof fn law_every_finding_is_told(s: SessionModel, path: Seq<char>, words: Seq<char>)
    ensures
        ({
            let now = s.applied().tree;
            let found = form_findings(s.form, now, s.today, s.now);
            let o = s.outcome();
            &&& o.relevant == form_relevance(s.form, now, s.today, s.now)
            &&& o.missing.contains(path) <==> exists|i: int|
                0 <= i < found.len() && (#[trigger] found[i]).kind is Required
                    && found[i].node_path == path && is_told(o.relevant, found[i])
            &&& o.invalid.contains((path, words)) <==> exists|i: int|
                0 <= i < found.len() && (#[trigger] found[i]).kind is Constraint
                    && found[i].node_path == path && is_complaint(found[i], words) && is_told(
                    o.relevant,
                    found[i],
                )
            &&& o.failed.contains((path, words)) <==> {
                ||| form_calculations(s.form, s.instance, s.today, s.now).failed.contains(
                    (path, words),
                )
                ||| exists|i: int|
                    0 <= i < form_relevance_failures(s.form, now, s.today, s.now).len() && (
                    #[trigger] form_relevance_failures(s.form, now, s.today, s.now)[i]).node_path
                        == path && words == description(
                        form_relevance_failures(s.form, now, s.today, s.now)[i],
                    )
                ||| exists|i: int|
                    0 <= i < found.len() && (#[trigger] found[i]).kind == KindModel::Failed(words)
                        && found[i].node_path == path && is_told(o.relevant, found[i])
            }
        }),
{
    let now = s.applied().tree;
    let found = form_findings(s.form, now, s.today, s.now);
    let failures = form_relevance_failures(s.form, now, s.today, s.now);
    let calculated = form_calculations(s.form, s.instance, s.today, s.now).failed;
    let start = OutcomeModel {
        calculated: s.applied().calculated,
        relevant: form_relevance(s.form, now, s.today, s.now),
        missing: Seq::empty(),
        invalid: Seq::empty(),
        failed: calculated + described(failures),
        repeats: Seq::empty(),
    };
    lemma_noted(start, found, 0, path, words);
    crate::parser::parts::lemma_in_sum(calculated, described(failures), (path, words));
    let d = described(failures);
    if d.contains((path, words)) {
        let i = choose|i: int| 0 <= i < d.len() && d[i] == (path, words);
        assert(failures[i].node_path == path);
    }
    if exists|i: int|
        0 <= i < failures.len() && (#[trigger] failures[i]).node_path == path && words
            == description(failures[i]) {
        let i = choose|i: int|
            0 <= i < failures.len() && (#[trigger] failures[i]).node_path == path && words
                == description(failures[i]);
        assert(d[i] == (path, words));
    }
}

// ---------------------------------------------------------------------------
// Calculated values
// ---------------------------------------------------------------------------

proof fn lemma_applied(
    a: Applied,
    computed: Seq<(Seq<char>, Seq<char>)>,
    k: int,
    env: Surroundings,
    path: Seq<char>,
)
    requires
        0 <= k <= computed.len(),
        in_key_order(a.calculated),
    ensures
        lookup(applied_from(a, computed, k, env).calculated, path) is Some ==> lookup(
            a.calculated,
            path,
        ) == lookup(applied_from(a, computed, k, env).calculated, path) || exists|i: int|
            k <= i < computed.len() && #[trigger] computed[i] == (
                path,
                lookup(applied_from(a, computed, k, env).calculated, path)->0,
            ),
    decreases computed.len() - k,
{
    if k < computed.len() {
        let (p, value) = computed[k];
        if answer_at(a.tree, p, env) == value {
            lemma_applied(a, computed, k + 1, env, path);
        } else {
            let next = Applied {
                tree: match answered(a.tree, p, value, env) {
                    Ok(t) => t,
                    Err(_) => a.tree,
                },
                calculated: with_entry(a.calculated, p, value),
            };
            law_keys_stay_in_order(a.calculated, p, value);
            lemma_applied(next, computed, k + 1, env, path);
            law_lookup_after_entry(a.calculated, p, value, path);
            if lookup(next.calculated, path) == lookup(
                applied_from(a, computed, k, env).calculated,
                path,
            ) && p == path {
                assert(computed[k] == (path, value));
            }
        }
    }
}

/// What a recompute reports as calculated is what a calculation came to at
/// that path.
pub proof fn law_reported_values_are_calculated(s: SessionModel, path: Seq<char>)
    requires
        lookup(s.outcome().calculated, path) is Some,
    ensures
        form_calculations(s.form, s.instance, s.today, s.now).computed.contains(
            (path, lookup(s.outcome().calculated, path)->0),
        ),
{
    let computed = form_calculations(s.form, s.instance, s.today, s.now).computed;
    let start = Applied { tree: s.instance, calculated: Seq::empty() };
    let now = s.applied().tree;
    let found = form_findings(s.form, now, s.today, s.now);
    let noted = OutcomeModel {
        calculated: s.applied().calculated,
        relevant: form_relevance(s.form, now, s.today, s.now),
        missing: Seq::empty(),
        invalid: Seq::empty(),
        failed: form_calculations(s.form, s.instance, s.today, s.now).failed + described(
            form_relevance_failures(s.form, now, s.today, s.now),
        ),
        repeats: Seq::empty(),
    };
    lemma_noted(noted, found, 0, path, path);
    assert(s.outcome().calculated == s.applied().calculated);
    lemma_applied(start, computed, 0, s.env(), path);
    assert(lookup(start.calculated, path) is None);
    let i = choose|i: int|
        0 <= i < computed.len() && #[trigger] computed[i] == (
            path,
            lookup(s.outcome().calculated, path)->0,
        );
    assert(computed[i] == (path, lookup(s.outcome().calculated, path)->0));
}

// ---------------------------------------------------------------------------
// Repeats
// ---------------------------------------------------------------------------

proof fn lemma_counted(
    t: Tree,
    templates: Seq<(Seq<char>, Tree)>,
    i: int,
    env: Surroundings,
    found: Seq<(Seq<char>, usize)>,
    path: Seq<char>,
)
    requires
        0 <= i <= templates.len(),
        in_key_order(found),
    ensures
        lookup(counted_from(t, templates, i, env, found), path) == if exists|k: int|
            i <= k < templates.len() && (#[trigger] templates[k]).0 == path {
            Some(rows_of(t, path, env).len() as usize)
        } else {
            lookup(found, path)
        },
    decreases templates.len() - i,
{
    if i < templates.len() {
        let p = templates[i].0;
        let count = rows_of(t, p, env).len() as usize;
        law_keys_stay_in_order(found, p, count);
        lemma_counted(t, templates, i + 1, env, with_entry(found, p, count), path);
        law_lookup_after_entry(found, p, count, path);
    }
}

/// A recompute says of each repeat of the form how many rows it has once
/// calculations have been applied, and of nothing else.
pub proof fn law_rows_are_counted(s: SessionModel, path: Seq<char>)
    ensures
        lookup(s.outcome().repeats, path) == if exists|k: int|
            0 <= k < s.templates.len() && (#[trigger] s.templates[k]).0 == path {
            Some(rows_of(s.applied().tree, path, s.env()).len() as usize)
        } else {
            None
        },
{
    let after = SessionModel { instance: s.applied().tree, ..s };
    assert(after.env() == s.env());
    lemma_counted(after.instance, s.templates, 0, s.env(), Seq::empty(), path);
    assert(lookup(Seq::<(Seq<char>, usize)>::empty(), path) is None);
}

// ---------------------------------------------------------------------------
// Rows
// ---------------------------------------------------------------------------

proof fn lemma_last_slash(above: Seq<char>, name: Seq<char>)
    requires
        !name.contains('/'),
    ensures
        last_slash(above + seq!['/'] + name) == Some(above.len() as int),
{
    let path = above + seq!['/'] + name;
    let n = path.len() as int;
    let k = above.len() as int;
    lemma_span_back(path, n, Class::Not('/'));
    let at = span_back(path, n, Class::Not('/'));
    assert(path[k] == '/');
    assert(!in_class(Class::Not('/'), path[k]));
    assert(at > k);
    if at > k + 1 {
        assert(path[at - 1] == name[at - 1 - k - 1]);
        assert(name.contains(path[at - 1]));
    }
}

proof fn lemma_named_rows(t: Tree, s: Seq<NodeId>, name: Seq<char>, n: NodeId)
    ensures
        named(t, s, name).contains(n) <==> s.contains(n) && t.name(n) == name,
    decreases s.len(),
{
    if s.len() > 0 {
        let d = s.drop_last();
        lemma_named_rows(t, d, name, n);
        lemma_pushed(named(t, d, name), s.last(), n);
        lemma_pushed(d, s.last(), n);
        assert(d.push(s.last()) =~= s);
    }
}

/// The rows of a repeat are the elements of its name in the one that holds
/// it: all of them, and no others.
pub proof fn law_rows_are_the_elements_of_a_name(
    t: Tree,
    above: Seq<char>,
    name: Seq<char>,
    parent: NodeId,
    n: NodeId,
    env: Surroundings,
)
    requires
        !name.contains('/'),
        if above.len() == 0 {
            t.root == Some(parent)
        } else {
            node_at(t, above, env) == Some(parent)
        },
    ensures
        rows_of(t, above + seq!['/'] + name, env).contains(n) <==> t.children(parent).contains(n)
            && t.name(n) == name,
{
    let path = above + seq!['/'] + name;
    lemma_last_slash(above, name);
    assert(path.take(above.len() as int) =~= above);
    assert(path.skip(above.len() as int + 1) =~= name);
    lemma_named_rows(t, t.children(parent), name, n);
}

} // verus!
