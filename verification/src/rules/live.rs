//! A form's logic on answers that are still being given.

use crate::eval::{eval, evaluate, Context, Environment, Surroundings};
use crate::functions::text_result;
use crate::rules::binding::{violation_models, Binding, BindingModel, Violation};
use crate::rules::checking::{
    at, findings, hidden_itself, in_form_order, is_named, nodes_for, nodes_named, own_relevance,
    relevance_of, shown, Aspect, Relevance, Rules,
};
use crate::rules::form::{
    all_nodes, document, form_surroundings, model_of, unwrap_path, unwrap_violations, unwrapped,
    unwrapped_path, Clock, Form, FormModel,
};
use crate::rules::laws::law_relevance_cascades;
use crate::rules::order::ints;
use crate::table::{
    in_key_order, law_keys_stay_in_order, law_lookup_after_entry, lookup, with_entry, Table,
};
use crate::tree::{Instance, NodeId, Tree};
use vstd::prelude::*;

verus! {

/// Pairs of texts, by what they hold.
pub open spec fn text_pairs(v: Seq<(String, String)>) -> Seq<(Seq<char>, Seq<char>)> {
    Seq::new(v.len(), |i: int| (v[i].0@, v[i].1@))
}

pub(crate) fn put_pair(v: &mut Vec<(String, String)>, a: String, b: String)
    ensures
        text_pairs(final(v)@) == text_pairs(old(v)@).push((a@, b@)),
{
    let ghost was = v@;
    let ghost pair = (a@, b@);
    v.push((a, b));
    assert(text_pairs(v@) == text_pairs(was).push(pair));
}

// ---------------------------------------------------------------------------
// Calculations
// ---------------------------------------------------------------------------

/// Calculations under way: the document with the results so far written into
/// it, those results, and the calculations that could not be evaluated. A
/// node is given by its address.
#[verifier::ext_equal]
pub struct Working {
    pub tree: Tree,
    pub computed: Seq<(Seq<char>, Seq<char>)>,
    pub failed: Seq<(Seq<char>, Seq<char>)>,
}

/// The address of a node, as the form writes it.
pub open spec fn place_of(t: Tree, n: NodeId) -> Seq<char> {
    unwrapped_path(t.address_of(n))
}

impl Working {
    /// The work after one node has been calculated.
    pub open spec fn calculated_at(self, b: BindingModel, n: NodeId, env: Surroundings) -> Working {
        match b.calculate {
            None => self,
            Some(e) => match text_result(eval(e, self.tree, at(n), env), self.tree) {
                Ok(text) => Working {
                    tree: self.tree.with_value(n, text),
                    computed: self.computed.push((place_of(self.tree, n), text)),
                    ..self
                },
                Err(why) => Working {
                    failed: self.failed.push((place_of(self.tree, n), why)),
                    ..self
                },
            },
        }
    }

    /// The work after the nodes of a binding, from the one at `j` on.
    pub open spec fn calculated_nodes(
        self,
        b: BindingModel,
        nodes: Seq<NodeId>,
        j: int,
        env: Surroundings,
    ) -> Working
        decreases nodes.len() - j,
    {
        if j < 0 || j >= nodes.len() {
            self
        } else {
            self.calculated_at(b, nodes[j], env).calculated_nodes(b, nodes, j + 1, env)
        }
    }

    /// The work after the bindings of an order, from the one at `k` on. Each
    /// sees what those before it came to.
    pub open spec fn calculated(
        self,
        bindings: Seq<BindingModel>,
        order: Seq<int>,
        k: int,
        env: Surroundings,
    ) -> Working
        decreases order.len() - k,
    {
        if k < 0 || k >= order.len() {
            self
        } else {
            let b = bindings[order[k]];
            self.calculated_nodes(b, nodes_for(b.path, self.tree, env), 0, env).calculated(
                bindings,
                order,
                k + 1,
                env,
            )
        }
    }
}

/// What the calculations of a form come to on answers.
pub open spec fn form_calculations(
    form: FormModel,
    t: Tree,
    today: Seq<char>,
    now: Seq<char>,
) -> Working {
    (Working {
        tree: model_of(form, t),
        computed: Seq::empty(),
        failed: Seq::empty(),
    }).calculated(
        form.rules.bindings,
        form.rules.order,
        0,
        form_surroundings(form.tables, today, now),
    )
}

fn calculate_at<E: Environment>(
    binding: &Binding,
    model: &mut Instance,
    node: NodeId,
    env: &E,
    computed: &mut Vec<(String, String)>,
    failed: &mut Vec<(String, String)>,
)
    requires
        old(model)@.wf(),
        old(model)@.has(node),
    ensures
        (Working {
            tree: final(model)@,
            computed: text_pairs(final(computed)@),
            failed: text_pairs(final(failed)@),
        }) == (Working {
            tree: old(model)@,
            computed: text_pairs(old(computed)@),
            failed: text_pairs(old(failed)@),
        }).calculated_at(binding@, node, env.model()),
        final(model)@.wf(),
        final(model)@.nodes.len() == old(model)@.nodes.len(),
{
    if let Some(calculate) = &binding.calculate {
        let result = match evaluate(calculate, model, Context::at(node), env) {
            Err(why) => Err(why),
            Ok(value) => value.text(model),
        };
        let place = unwrap_path(model.address_of(node).as_str());
        match result {
            Ok(text) => {
                let ghost before = model@;
                proof {
                    before.lemma_with_value_wf(node, text@);
                }
                model.node_mut(node).value = text.clone();
                assert(model@ == before.with_value(node, text@));
                put_pair(computed, place, text);
            },
            Err(why) => {
                put_pair(failed, place, why);
            },
        }
    }
}

impl Rules {
    /// Run every calculation on a document, each seeing what those before it
    /// came to.
    fn calculate<E: Environment>(
        &self,
        model: &mut Instance,
        env: &E,
        computed: &mut Vec<(String, String)>,
        failed: &mut Vec<(String, String)>,
    )
        requires
            self@.wf(),
            old(model)@.wf(),
        ensures
            (Working {
                tree: final(model)@,
                computed: text_pairs(final(computed)@),
                failed: text_pairs(final(failed)@),
            }) == (Working {
                tree: old(model)@,
                computed: text_pairs(old(computed)@),
                failed: text_pairs(old(failed)@),
            }).calculated(self@.bindings, self@.order, 0, env.model()),
            final(model)@.wf(),
    {
        let ghost m = self@.bindings;
        let ghost order = self@.order;
        let ghost e = env.model();
        let ghost all = (Working {
            tree: model@,
            computed: text_pairs(computed@),
            failed: text_pairs(failed@),
        }).calculated(m, order, 0, e);
        let list = self.order();
        let n = list.len();
        for k in 0..n
            invariant
                self@.wf(),
                m == self@.bindings,
                order == self@.order,
                e == env.model(),
                ints(list@) == order,
                n == list@.len(),
                n == order.len(),
                model@.wf(),
                all == (Working {
                    tree: model@,
                    computed: text_pairs(computed@),
                    failed: text_pairs(failed@),
                }).calculated(m, order, k as int, e),
        {
            assert(order[k as int] == list@[k as int]);
            let binding = self.binding(list[k]);
            let nodes = nodes_named(binding.path.as_str(), model, env);
            let ghost w = Working {
                tree: model@,
                computed: text_pairs(computed@),
                failed: text_pairs(failed@),
            };
            let ghost part = w.calculated_nodes(binding@, nodes@, 0, e);
            assert(all == part.calculated(m, order, k + 1, e));
            let c = nodes.len();
            for j in 0..c
                invariant
                    e == env.model(),
                    c == nodes@.len(),
                    model@.wf(),
                    model@.all_in(nodes@),
                    part == (Working {
                        tree: model@,
                        computed: text_pairs(computed@),
                        failed: text_pairs(failed@),
                    }).calculated_nodes(binding@, nodes@, j as int, e),
            {
                assert(model@.has(nodes@[j as int]));
                let ghost size = model@.nodes.len();
                calculate_at(binding, model, nodes[j], env, computed, failed);
                assert(model@.all_in(nodes@)) by {
                    assert forall|i: int| 0 <= i < nodes@.len() implies model@.has(
                        #[trigger] nodes@[i],
                    ) by {}
                }
            }
        }
    }
}

// ---------------------------------------------------------------------------
// Relevance
// ---------------------------------------------------------------------------

/// The nodes of a list from the one at `j` on, each followed by what is
/// below it.
pub open spec fn with_below(t: Tree, nodes: Seq<NodeId>, j: int) -> Seq<NodeId>
    decreases nodes.len() - j,
{
    if j < 0 || j >= nodes.len() {
        Seq::empty()
    } else {
        document(t, nodes[j]) + with_below(t, nodes, j + 1)
    }
}

/// Whether the nodes of a list are asked, by their addresses, from the one
/// at `j` on.
pub open spec fn marked_nodes(
    bindings: Seq<BindingModel>,
    nodes: Seq<NodeId>,
    j: int,
    t: Tree,
    env: Surroundings,
    found: Seq<(Seq<char>, bool)>,
) -> Seq<(Seq<char>, bool)>
    decreases nodes.len() - j,
{
    if j < 0 || j >= nodes.len() {
        found
    } else {
        marked_nodes(
            bindings,
            nodes,
            j + 1,
            t,
            env,
            with_entry(found, place_of(t, nodes[j]), shown(bindings, t, nodes[j], env)),
        )
    }
}

/// What is asked under a condition of a binding: the nodes it names, and
/// all that stands below them.
pub open spec fn conditional(b: BindingModel, t: Tree, env: Surroundings) -> Seq<NodeId> {
    if b.relevant is Some {
        with_below(t, nodes_for(b.path, t, env), 0)
    } else {
        Seq::empty()
    }
}

/// Whether what is asked under a condition is asked now, for the bindings
/// from the one at `k` on.
pub open spec fn marked(
    bindings: Seq<BindingModel>,
    k: int,
    t: Tree,
    env: Surroundings,
    found: Seq<(Seq<char>, bool)>,
) -> Seq<(Seq<char>, bool)>
    decreases bindings.len() - k,
{
    if k < 0 || k >= bindings.len() {
        found
    } else {
        marked(
            bindings,
            k + 1,
            t,
            env,
            marked_nodes(bindings, conditional(bindings[k], t, env), 0, t, env, found),
        )
    }
}

proof fn lemma_marked_nodes(
    bindings: Seq<BindingModel>,
    nodes: Seq<NodeId>,
    j: int,
    t: Tree,
    env: Surroundings,
    found: Seq<(Seq<char>, bool)>,
    key: Seq<char>,
)
    requires
        0 <= j,
        in_key_order(found),
    ensures
        in_key_order(marked_nodes(bindings, nodes, j, t, env, found)),
        lookup(found, key) is Some ==> lookup(
            marked_nodes(bindings, nodes, j, t, env, found),
            key,
        ) is Some,
        (exists|i: int| j <= i < nodes.len() && key == place_of(t, #[trigger] nodes[i]))
            ==> lookup(marked_nodes(bindings, nodes, j, t, env, found), key) is Some,
    decreases nodes.len() - j,
{
    if j < nodes.len() {
        let place = place_of(t, nodes[j]);
        let asked = shown(bindings, t, nodes[j], env);
        law_keys_stay_in_order(found, place, asked);
        law_lookup_after_entry(found, place, asked, key);
        lemma_marked_nodes(
            bindings,
            nodes,
            j + 1,
            t,
            env,
            with_entry(found, place, asked),
            key,
        );
    }
}

proof fn lemma_marked(
    bindings: Seq<BindingModel>,
    k: int,
    t: Tree,
    env: Surroundings,
    found: Seq<(Seq<char>, bool)>,
    key: Seq<char>,
)
    requires
        0 <= k,
        in_key_order(found),
    ensures
        lookup(found, key) is Some ==> lookup(marked(bindings, k, t, env, found), key) is Some,
        forall|b: int, i: int|
            k <= b < bindings.len() && 0 <= i < conditional(bindings[b], t, env).len()
                && place_of(t, #[trigger] conditional(bindings[b], t, env)[i]) == key
                ==> lookup(marked(bindings, k, t, env, found), key) is Some,
    decreases bindings.len() - k,
{
    if k < bindings.len() {
        let nodes = conditional(bindings[k], t, env);
        let next = marked_nodes(bindings, nodes, 0, t, env, found);
        lemma_marked_nodes(bindings, nodes, 0, t, env, found, key);
        lemma_marked(bindings, k + 1, t, env, next, key);
    }
}

proof fn lemma_with_below(t: Tree, nodes: Seq<NodeId>, j: int, above: NodeId, n: NodeId)
    requires
        0 <= j,
        exists|i: int| j <= i < nodes.len() && #[trigger] nodes[i] == above,
        document(t, above).contains(n),
    ensures
        with_below(t, nodes, j).contains(n),
    decreases nodes.len() - j,
{
    let first = document(t, nodes[j]);
    let rest = with_below(t, nodes, j + 1);
    let all = first + rest;
    if nodes[j] == above {
        let i = choose|i: int| 0 <= i < first.len() && first[i] == n;
        assert(all[i] == n);
    } else {
        lemma_with_below(t, nodes, j + 1, above, n);
        let i = choose|i: int| 0 <= i < rest.len() && rest[i] == n;
        assert(all[first.len() + i] == n);
    }
}

/// A question that is not among those asked under a condition is always
/// asked: no binding hides it, nor anything it stands in.
pub proof fn law_what_is_not_marked_is_asked(
    bindings: Seq<BindingModel>,
    t: Tree,
    env: Surroundings,
    n: NodeId,
    above: NodeId,
)
    requires
        lookup(marked(bindings, 0, t, env, Seq::empty()), place_of(t, n)) is None,
        document(t, above).contains(n),
    ensures
        own_relevance(bindings, bindings.len() as int, t, above, env) is None,
        !hidden_itself(bindings, t, above, env),
{
    let key = place_of(t, n);
    lemma_marked(bindings, 0, t, env, Seq::empty(), key);
    assert forall|b: int| 0 <= b < bindings.len() implies !((#[trigger] bindings[b]).relevant is Some
        && nodes_for(bindings[b].path, t, env).contains(above)) by {
        if bindings[b].relevant is Some && nodes_for(bindings[b].path, t, env).contains(above) {
            let nodes = nodes_for(bindings[b].path, t, env);
            lemma_with_below(t, nodes, 0, above, n);
            let all = conditional(bindings[b], t, env);
            let i = choose|i: int| 0 <= i < all.len() && all[i] == n;
            assert(place_of(t, conditional(bindings[b], t, env)[i]) == key);
        }
    }
    lemma_unconditional(bindings, bindings.len() as int, t, above, env);
}

proof fn lemma_unconditional(
    bindings: Seq<BindingModel>,
    k: int,
    t: Tree,
    n: NodeId,
    env: Surroundings,
)
    requires
        k <= bindings.len(),
        forall|b: int|
            0 <= b < bindings.len() ==> !((#[trigger] bindings[b]).relevant is Some && nodes_for(
                bindings[b].path,
                t,
                env,
            ).contains(n)),
    ensures
        own_relevance(bindings, k, t, n, env) is None,
    decreases k,
{
    if k > 0 {
        lemma_unconditional(bindings, k - 1, t, n, env);
    }
}

/// Which of the questions that are asked under a condition, their own or
/// that of a group they stand in, are asked now.
pub open spec fn form_relevance(
    form: FormModel,
    t: Tree,
    today: Seq<char>,
    now: Seq<char>,
) -> Seq<(Seq<char>, bool)> {
    marked(
        form.rules.bindings,
        0,
        model_of(form, t),
        form_surroundings(form.tables, today, now),
        Seq::empty(),
    )
}

/// The relevance expressions of a form that could not be evaluated.
pub open spec fn form_relevance_failures(
    form: FormModel,
    t: Tree,
    today: Seq<char>,
    now: Seq<char>,
) -> Seq<crate::rules::binding::ViolationModel> {
    unwrapped(
        findings(
            Aspect::Relevance,
            form.rules.bindings,
            in_form_order(form.rules.bindings.len()),
            0,
            model_of(form, t),
            model_of(form, t),
            form_surroundings(form.tables, today, now),
        ),
    )
}

fn conditional_nodes<E: Environment>(binding: &Binding, model: &Instance, env: &E) -> (r: Vec<
    NodeId,
>)
    requires
        model@.wf(),
    ensures
        r@ == conditional(binding@, model@, env.model()),
        model@.all_in(r@),
{
    let ghost t = model@;
    let mut out: Vec<NodeId> = Vec::new();
    if binding.relevant.is_some() {
        let nodes = nodes_named(binding.path.as_str(), model, env);
        let ghost all = with_below(t, nodes@, 0);
        let n = nodes.len();
        assert(out@ + all == all);
        for j in 0..n
            invariant
                t == model@,
                t.wf(),
                n == nodes@.len(),
                t.all_in(nodes@),
                t.all_in(out@),
                all == out@ + with_below(t, nodes@, j as int),
        {
            let ghost was = out@;
            assert(t.has(nodes@[j as int]));
            let mut below = all_nodes(model, nodes[j]);
            let ghost mine = below@;
            out.append(&mut below);
            proof {
                t.lemma_all_in_add(was, mine);
                assert(was + (mine + with_below(t, nodes@, j + 1)) == out@ + with_below(
                    t,
                    nodes@,
                    j + 1,
                ));
            }
        }
        assert(out@ + Seq::<NodeId>::empty() == out@);
    }
    out
}

proof fn lemma_own_is_named(
    bindings: Seq<BindingModel>,
    k: int,
    t: Tree,
    n: NodeId,
    env: Surroundings,
)
    requires
        k <= bindings.len(),
        own_relevance(bindings, k, t, n, env) is Some,
    ensures
        is_named(bindings, bindings.len() as int, t, n, env),
    decreases k,
{
    let b = bindings[k - 1];
    if !(b.relevant is Some && nodes_for(b.path, t, env).contains(n)) {
        lemma_own_is_named(bindings, k - 1, t, n, env);
    }
}

/// Whether neither a node nor one above it is known to be irrelevant.
fn is_asked(
    Ghost(bindings): Ghost<Seq<BindingModel>>,
    Ghost(e): Ghost<Surroundings>,
    relevance: &Relevance,
    model: &Instance,
    node: NodeId,
) -> (r: bool)
    requires
        model@.wf(),
        model@.has(node),
        forall|n: NodeId|
            model@.has(n) ==> #[trigger] relevance.of(n) == relevance_of(bindings, model@, n, e),
    ensures
        r == shown(bindings, model@, node, e),
{
    let ghost t = model@;
    assert(relevance.of(node) == relevance_of(bindings, t, node, e));
    if let Some(false) = relevance.get(node) {
        return false;
    }
    let up = model.ancestors(node);
    let n = up.len();
    for i in 0..n
        invariant
            t == model@,
            t.wf(),
            t.has(node),
            n == up@.len(),
            up@ == t.ancestors(node),
            t.all_in(up@),
            forall|n: NodeId|
                t.has(n) ==> #[trigger] relevance.of(n) == relevance_of(bindings, t, n, e),
            forall|j: int|
                0 <= j < i ==> relevance_of(bindings, t, #[trigger] up@[j], e) != Some(false),
    {
        assert(t.has(up@[i as int]));
        let above = up[i];
        assert(relevance.of(above) == relevance_of(bindings, t, above, e));
        if let Some(false) = relevance.get(above) {
            proof {
                assert(t.ancestors(node).contains(above));
                law_relevance_cascades(bindings, t, node, above, e);
            }
            return false;
        }
    }
    proof {
        if hidden_itself(bindings, t, node, e) {
            lemma_own_is_named(bindings, bindings.len() as int, t, node, e);
        }
        assert forall|j: int| 0 <= j < t.ancestors(node).len() implies !hidden_itself(
            bindings,
            t,
            #[trigger] t.ancestors(node)[j],
            e,
        ) by {
            let above = t.ancestors(node)[j];
            assert(above == up@[j]);
            if hidden_itself(bindings, t, above, e) {
                lemma_own_is_named(bindings, bindings.len() as int, t, above, e);
            }
        }
    }
    true
}

impl Rules {
    fn mark<E: Environment>(&self, model: &Instance, relevance: &Relevance, env: &E) -> (r: Table<
        bool,
    >)
        requires
            model@.wf(),
            forall|n: NodeId|
                model@.has(n) ==> #[trigger] relevance.of(n) == relevance_of(
                    self@.bindings,
                    model@,
                    n,
                    env.model(),
                ),
        ensures
            r@ == marked(self@.bindings, 0, model@, env.model(), Seq::empty()),
            in_key_order(r@),
    {
        let ghost m = self@.bindings;
        let ghost t = model@;
        let ghost e = env.model();
        let ghost all = marked(m, 0, t, e, Seq::empty());
        let mut out: Table<bool> = Table::new();
        let n = self.count();
        for k in 0..n
            invariant
                m == self@.bindings,
                t == model@,
                t.wf(),
                e == env.model(),
                n == m.len(),
                forall|n: NodeId|
                    t.has(n) ==> #[trigger] relevance.of(n) == relevance_of(m, t, n, e),
                in_key_order(out@),
                all == marked(m, k as int, t, e, out@),
        {
            let binding = self.binding(k);
            let nodes = conditional_nodes(binding, model, env);
            let ghost part = marked_nodes(m, nodes@, 0, t, e, out@);
            let c = nodes.len();
            for j in 0..c
                invariant
                    m == self@.bindings,
                    t == model@,
                    t.wf(),
                    e == env.model(),
                    c == nodes@.len(),
                    t.all_in(nodes@),
                    forall|n: NodeId|
                        t.has(n) ==> #[trigger] relevance.of(n) == relevance_of(m, t, n, e),
                    in_key_order(out@),
                    part == marked_nodes(m, nodes@, j as int, t, e, out@),
            {
                let node = nodes[j];
                assert(t.has(nodes@[j as int]));
                let asked = is_asked(Ghost(m), Ghost(e), relevance, model, node);
                let place = unwrap_path(model.address_of(node).as_str());
                out.insert(place.as_str(), asked);
            }
        }
        out
    }
}

impl Form {
    /// What the form's calculations come to, in the order they run, and
    /// those that could not be evaluated. A calculation that reads another
    /// sees its result.
    pub fn calculations(&self, instance: &Instance, clock: &Clock) -> (r: (
        Vec<(String, String)>,
        Vec<(String, String)>,
    ))
        requires
            self@.wf(),
            instance@.wf(),
        ensures
            text_pairs(r.0@) == form_calculations(
                self@,
                instance@,
                clock.today@,
                clock.now@,
            ).computed,
            text_pairs(r.1@) == form_calculations(
                self@,
                instance@,
                clock.today@,
                clock.now@,
            ).failed,
    {
        let mut model = self.model_of(instance);
        let env = self.environment(clock.clone());
        let mut computed: Vec<(String, String)> = Vec::new();
        let mut failed: Vec<(String, String)> = Vec::new();
        assert(text_pairs(computed@) == Seq::<(Seq<char>, Seq<char>)>::empty());
        assert(text_pairs(failed@) == Seq::<(Seq<char>, Seq<char>)>::empty());
        self.own_rules().calculate(&mut model, &env, &mut computed, &mut failed);
        (computed, failed)
    }

    /// Whether each question that has a relevance expression, or stands in
    /// a group that has one, is asked now, by address, and the expressions
    /// that could not be evaluated.
    pub fn relevance(&self, instance: &Instance, clock: &Clock) -> (r: (
        Table<bool>,
        Vec<Violation>,
    ))
        requires
            self@.wf(),
            instance@.wf(),
        ensures
            r.0@ == form_relevance(self@, instance@, clock.today@, clock.now@),
            in_key_order(r.0@),
            violation_models(r.1@) == form_relevance_failures(
                self@,
                instance@,
                clock.today@,
                clock.now@,
            ),
    {
        let model = self.model_of(instance);
        let env = self.environment(clock.clone());
        let mut problems: Vec<Violation> = Vec::new();
        assert(violation_models(problems@) == Seq::<crate::rules::binding::ViolationModel>::empty());
        let relevance = self.own_rules().relevance(&model, &env, &mut problems);
        let table = self.own_rules().mark(&model, &relevance, &env);
        let ghost f = findings(
            Aspect::Relevance,
            self@.rules.bindings,
            in_form_order(self@.rules.bindings.len()),
            0,
            model@,
            model@,
            env.model(),
        );
        assert(Seq::<crate::rules::binding::ViolationModel>::empty() + f == f);
        (table, unwrap_violations(problems))
    }
}

} // verus!
