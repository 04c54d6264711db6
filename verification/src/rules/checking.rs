//! Checking a filled instance against the rules of its form.

use crate::eval::value::{truth, Value, ValueModel};
use crate::eval::{eval, evaluate, Context, Environment, Here, Surroundings};
use crate::functions::text_result;
use crate::parser::ast::{Expr, ExprModel};
use crate::parser::grammar::{parse, parse_model};
use crate::rules::binding::{
    binding_models, copy_text, violation_models, Binding, BindingModel, KindModel, Violation,
    ViolationKind, ViolationModel,
};
use crate::rules::order::{ints, ordering, sort};
use crate::text::{blank, is_blank, same};
use crate::tree::{Instance, NodeId, Tree};
use vstd::prelude::*;

verus! {

// ---------------------------------------------------------------------------
// Nodes and relevance
// ---------------------------------------------------------------------------

/// Evaluation at a node by itself.
pub open spec fn at(n: NodeId) -> Here {
    Here { node: n, position: 1, size: 1 }
}

/// The nodes of a list that a document has.
pub open spec fn present(t: Tree, s: Seq<NodeId>) -> Seq<NodeId>
    decreases s.len(),
{
    if s.len() == 0 {
        s
    } else if t.has(s.last()) {
        present(t, s.drop_last()).push(s.last())
    } else {
        present(t, s.drop_last())
    }
}

/// Every node a binding path names, one per repeat instance.
pub open spec fn nodes_for(path: Seq<char>, t: Tree, env: Surroundings) -> Seq<NodeId> {
    match (parse_model(path), t.root) {
        (Ok(e), Some(root)) => match eval(e, t, at(root), env) {
            Ok(ValueModel::NodeSet(nodes)) => present(t, nodes),
            _ => Seq::empty(),
        },
        _ => Seq::empty(),
    }
}

/// What a relevance expression says of a node. One that cannot be evaluated
/// is reported, and the question treated as asked. Hiding it instead would
/// silently drop the answer.
pub open spec fn judged(e: ExprModel, t: Tree, n: NodeId, env: Surroundings) -> bool {
    match eval(e, t, at(n), env) {
        Ok(v) => truth(v),
        Err(_) => true,
    }
}

/// What the first `k` bindings say of a node's own relevance: the last of
/// those that judge it decides.
pub open spec fn own_relevance(
    bindings: Seq<BindingModel>,
    k: int,
    t: Tree,
    n: NodeId,
    env: Surroundings,
) -> Option<bool>
    decreases k,
{
    if k <= 0 {
        None
    } else {
        let b = bindings[k - 1];
        if b.relevant is Some && nodes_for(b.path, t, env).contains(n) {
            Some(judged(b.relevant->0, t, n, env))
        } else {
            own_relevance(bindings, k - 1, t, n, env)
        }
    }
}

pub open spec fn hidden_itself(
    bindings: Seq<BindingModel>,
    t: Tree,
    n: NodeId,
    env: Surroundings,
) -> bool {
    own_relevance(bindings, bindings.len() as int, t, n, env) == Some(false)
}

/// Whether a node is asked: neither it nor a node above it is irrelevant. A
/// question inside an irrelevant group is irrelevant however its own
/// expression evaluates. Skipping the cascade is the classic way to enforce
/// a constraint on an answer the enumerator was never shown.
pub open spec fn shown(
    bindings: Seq<BindingModel>,
    t: Tree,
    n: NodeId,
    env: Surroundings,
) -> bool {
    &&& !hidden_itself(bindings, t, n, env)
    &&& forall|i: int|
        0 <= i < t.ancestors(n).len() ==> !hidden_itself(
            bindings,
            t,
            #[trigger] t.ancestors(n)[i],
            env,
        )
}

/// Whether one of the first `k` bindings names a node.
pub open spec fn is_named(
    bindings: Seq<BindingModel>,
    k: int,
    t: Tree,
    n: NodeId,
    env: Surroundings,
) -> bool {
    exists|i: int|
        0 <= i < k && nodes_for((#[trigger] bindings[i]).path, t, env).contains(n)
}

/// The relevance of a node that a binding names, with the cascade applied.
pub open spec fn relevance_of(
    bindings: Seq<BindingModel>,
    t: Tree,
    n: NodeId,
    env: Surroundings,
) -> Option<bool> {
    if is_named(bindings, bindings.len() as int, t, n, env) {
        Some(shown(bindings, t, n, env))
    } else {
        None
    }
}

pub open spec fn is_hidden(
    bindings: Seq<BindingModel>,
    t: Tree,
    n: NodeId,
    env: Surroundings,
) -> bool {
    relevance_of(bindings, t, n, env) == Some(false)
}

// ---------------------------------------------------------------------------
// Findings
// ---------------------------------------------------------------------------

pub open spec fn finding(
    b: BindingModel,
    t: Tree,
    n: NodeId,
    kind: KindModel,
    message: Option<Seq<char>>,
) -> ViolationModel {
    ViolationModel { path: b.path, node_path: t.address_of(n), kind, message }
}

/// What is reported where a relevance cannot be evaluated.
pub open spec fn relevance_finding(
    b: BindingModel,
    t: Tree,
    n: NodeId,
    env: Surroundings,
) -> Seq<ViolationModel> {
    match b.relevant {
        None => Seq::empty(),
        Some(e) => match eval(e, t, at(n), env) {
            Ok(_) => Seq::empty(),
            Err(why) => seq![finding(b, t, n, KindModel::Failed(why), None)],
        },
    }
}

/// What is reported of a calculated node: that a document `t` holds another
/// value there than the form calculates in `u`, or that nothing could be
/// calculated.
pub open spec fn calculation_finding(
    b: BindingModel,
    t: Tree,
    u: Tree,
    n: NodeId,
    env: Surroundings,
) -> Seq<ViolationModel> {
    match b.calculate {
        None => Seq::empty(),
        Some(e) => match text_result(eval(e, u, at(n), env), u) {
            Err(why) => seq![finding(b, t, n, KindModel::Failed(why), None)],
            Ok(text) => if t.string_value(n) != text {
                seq![
                    finding(
                        b,
                        t,
                        n,
                        KindModel::Calculation { stored: t.string_value(n), computed: text },
                        None,
                    ),
                ]
            } else {
                Seq::empty()
            },
        },
    }
}

/// What is reported of a question that must be answered: that a document `t`
/// has no answer to it, where the form requires one by the values of `u`.
pub open spec fn required_finding(
    b: BindingModel,
    t: Tree,
    u: Tree,
    n: NodeId,
    env: Surroundings,
) -> Seq<ViolationModel> {
    match b.required {
        None => Seq::empty(),
        Some(e) => match eval(e, u, at(n), env) {
            Err(why) => seq![finding(b, t, n, KindModel::Failed(why), None)],
            Ok(v) => if truth(v) && is_blank(t.string_value(n)) {
                seq![finding(b, t, n, KindModel::Required, b.required_message)]
            } else {
                Seq::empty()
            },
        },
    }
}

/// A constraint judges an answer that a document `t` has, by the values of
/// `u`. With no answer there is nothing to judge: that is what `required` is
/// for.
pub open spec fn constraint_finding(
    b: BindingModel,
    t: Tree,
    u: Tree,
    n: NodeId,
    env: Surroundings,
) -> Seq<ViolationModel> {
    match b.constraint {
        None => Seq::empty(),
        Some(e) => if is_blank(t.string_value(n)) {
            Seq::empty()
        } else {
            match eval(e, u, at(n), env) {
                Err(why) => seq![finding(b, t, n, KindModel::Failed(why), None)],
                Ok(v) => if !truth(v) {
                    seq![finding(b, t, n, KindModel::Constraint, b.constraint_message)]
                } else {
                    Seq::empty()
                },
            }
        },
    }
}

/// What kind of rule is looked at, other than calculations.
#[derive(Debug, Clone, Copy, PartialEq, Eq, Structural)]
pub enum Aspect {
    Relevance,
    Answer,
    /// An answer left in a question that is not asked.
    Leftover,
}

/// What a binding finds of one node of a document `t`, when the rules are
/// evaluated in `u`. An irrelevant question is not asked, so it is neither
/// required nor constrained: ODK clears its value, so enforcing either would
/// fail every well-formed submission that skipped a branch. Where a value
/// was left in it all the same, that value is looked at by itself.
pub open spec fn findings_at(
    aspect: Aspect,
    bindings: Seq<BindingModel>,
    b: BindingModel,
    t: Tree,
    u: Tree,
    n: NodeId,
    env: Surroundings,
) -> Seq<ViolationModel> {
    match aspect {
        Aspect::Relevance => relevance_finding(b, u, n, env),
        Aspect::Answer => if is_hidden(bindings, t, n, env) {
            Seq::empty()
        } else {
            required_finding(b, t, u, n, env) + constraint_finding(b, t, u, n, env)
        },
        Aspect::Leftover => if is_hidden(bindings, t, n, env) && !is_blank(t.string_value(n)) {
            calculation_finding(b, t, u, n, env) + constraint_finding(b, t, u, n, env)
        } else {
            Seq::empty()
        },
    }
}

/// What a binding finds of its nodes, from the one at `j` on.
pub open spec fn binding_findings(
    aspect: Aspect,
    bindings: Seq<BindingModel>,
    b: BindingModel,
    nodes: Seq<NodeId>,
    j: int,
    t: Tree,
    u: Tree,
    env: Surroundings,
) -> Seq<ViolationModel>
    decreases nodes.len() - j,
{
    if j < 0 || j >= nodes.len() {
        Seq::empty()
    } else {
        findings_at(aspect, bindings, b, t, u, nodes[j], env) + binding_findings(
            aspect,
            bindings,
            b,
            nodes,
            j + 1,
            t,
            u,
            env,
        )
    }
}

/// What the bindings of a list find, from the one at `k` on.
pub open spec fn findings(
    aspect: Aspect,
    bindings: Seq<BindingModel>,
    list: Seq<int>,
    k: int,
    t: Tree,
    u: Tree,
    env: Surroundings,
) -> Seq<ViolationModel>
    decreases list.len() - k,
{
    if k < 0 || k >= list.len() {
        Seq::empty()
    } else {
        let b = bindings[list[k]];
        binding_findings(
            aspect,
            bindings,
            b,
            nodes_for(b.path, t, env),
            0,
            t,
            u,
            env,
        ) + findings(aspect, bindings, list, k + 1, t, u, env)
    }
}

/// All bindings in the order the form has them.
pub open spec fn in_form_order(n: nat) -> Seq<int> {
    Seq::new(n, |i: int| i)
}

/// Calculations that are held against a document: the document with what
/// they came to so far in the questions that are asked, and what was found.
#[verifier::ext_equal]
pub struct Derived {
    pub tree: Tree,
    pub found: Seq<ViolationModel>,
}

impl Derived {
    /// What is derived after one node. A question that is not asked is not
    /// calculated.
    pub open spec fn with_node(
        self,
        bindings: Seq<BindingModel>,
        b: BindingModel,
        t: Tree,
        n: NodeId,
        env: Surroundings,
    ) -> Derived {
        if is_hidden(bindings, t, n, env) {
            self
        } else {
            Derived {
                tree: with_calculated(b, self.tree, n, env),
                found: self.found + calculation_finding(b, t, self.tree, n, env),
            }
        }
    }

    /// What is derived after the nodes of a binding, from the one at `j` on.
    pub open spec fn with_nodes(
        self,
        bindings: Seq<BindingModel>,
        b: BindingModel,
        nodes: Seq<NodeId>,
        j: int,
        t: Tree,
        env: Surroundings,
    ) -> Derived
        decreases nodes.len() - j,
    {
        if j < 0 || j >= nodes.len() {
            self
        } else {
            self.with_node(bindings, b, t, nodes[j], env).with_nodes(
                bindings,
                b,
                nodes,
                j + 1,
                t,
                env,
            )
        }
    }

    /// What is derived after the bindings of an order, from the one at `k`
    /// on. Each reads what those before it came to.
    pub open spec fn with_order(
        self,
        bindings: Seq<BindingModel>,
        order: Seq<int>,
        k: int,
        t: Tree,
        env: Surroundings,
    ) -> Derived
        decreases order.len() - k,
    {
        if k < 0 || k >= order.len() {
            self
        } else {
            let b = bindings[order[k]];
            self.with_nodes(bindings, b, nodes_for(b.path, t, env), 0, t, env).with_order(
                bindings,
                order,
                k + 1,
                t,
                env,
            )
        }
    }
}

/// A document in which a node holds what its calculation comes to there.
pub open spec fn with_calculated(b: BindingModel, t: Tree, n: NodeId, env: Surroundings) -> Tree {
    match b.calculate {
        None => t,
        Some(e) => match text_result(eval(e, t, at(n), env), t) {
            Err(_) => t,
            Ok(text) => if t.string_value(n) == text {
                t
            } else {
                t.with_value(n, text)
            },
        },
    }
}

/// What calculations come to on a document, and what they find of it.
pub open spec fn derived(
    bindings: Seq<BindingModel>,
    order: Seq<int>,
    t: Tree,
    env: Surroundings,
) -> Derived {
    (Derived { tree: t, found: Seq::empty() }).with_order(bindings, order, 0, t, env)
}

/// What rules find of an instance: first the relevance that could not be
/// evaluated, then calculations in the order they run, then answers, which
/// are judged by the derived values.
pub open spec fn all_findings(
    bindings: Seq<BindingModel>,
    order: Seq<int>,
    t: Tree,
    env: Surroundings,
) -> Seq<ViolationModel> {
    findings(Aspect::Relevance, bindings, in_form_order(bindings.len()), 0, t, t, env) + derived(
        bindings,
        order,
        t,
        env,
    ).found + findings(
        Aspect::Answer,
        bindings,
        in_form_order(bindings.len()),
        0,
        t,
        derived(bindings, order, t, env).tree,
        env,
    )
}

/// What rules find of the values left in questions that are not asked.
pub open spec fn all_leftovers(
    bindings: Seq<BindingModel>,
    order: Seq<int>,
    t: Tree,
    env: Surroundings,
) -> Seq<ViolationModel> {
    findings(
        Aspect::Leftover,
        bindings,
        in_form_order(bindings.len()),
        0,
        t,
        derived(bindings, order, t, env).tree,
        env,
    )
}

// ---------------------------------------------------------------------------
// Rules
// ---------------------------------------------------------------------------

/// Every binding of a form, with the order its calculations must run in.
#[derive(Debug)]
pub struct Rules {
    pub bindings: Vec<Binding>,
    /// Indices into `bindings`, calculations first and in dependency order.
    calculation_order: Vec<usize>,
}

/// What rules hold.
#[verifier::ext_equal]
pub struct RulesModel {
    pub bindings: Seq<BindingModel>,
    pub order: Seq<int>,
}

impl View for Rules {
    type V = RulesModel;

    closed spec fn view(&self) -> RulesModel {
        RulesModel {
            bindings: binding_models(self.bindings@),
            order: ints(self.calculation_order@),
        }
    }
}

impl RulesModel {
    /// Whether the order names bindings only.
    pub open spec fn wf(self) -> bool {
        forall|k: int| 0 <= k < self.order.len() ==> 0 <= #[trigger] self.order[k]
            < self.bindings.len()
    }
}

impl Default for Rules {
    fn default() -> (r: Rules)
        ensures
            r@ == (RulesModel { bindings: Seq::empty(), order: Seq::empty() }),
            r@.wf(),
    {
        let r = Rules { bindings: Vec::new(), calculation_order: Vec::new() };
        assert(r@ == RulesModel { bindings: Seq::empty(), order: Seq::empty() });
        r
    }
}

impl Clone for Rules {
    fn clone(&self) -> (r: Rules)
        ensures
            r@ == self@,
    {
        let mut bindings: Vec<Binding> = Vec::new();
        let n = self.bindings.len();
        for i in 0..n
            invariant
                n == self.bindings@.len(),
                bindings@.len() == i,
                forall|j: int| 0 <= j < i ==> (#[trigger] bindings@[j])@ == self.bindings@[j]@,
        {
            bindings.push(self.bindings[i].clone());
        }
        let mut calculation_order: Vec<usize> = Vec::new();
        let m = self.calculation_order.len();
        for i in 0..m
            invariant
                m == self.calculation_order@.len(),
                calculation_order@ == self.calculation_order@.take(i as int),
        {
            calculation_order.push(self.calculation_order[i]);
        }
        let r = Rules { bindings, calculation_order };
        assert(r@ == self@);
        r
    }
}

/// The relevance of nodes.
#[derive(Debug)]
pub struct Relevance {
    marks: Vec<Option<bool>>,
}

impl Relevance {
    /// What is known of a node.
    pub closed spec fn of(&self, n: NodeId) -> Option<bool> {
        if n.0 < self.marks@.len() {
            self.marks@[n.0 as int]
        } else {
            None
        }
    }

    pub fn get(&self, node: NodeId) -> (r: Option<bool>)
        ensures
            r == self.of(node),
    {
        if node.0 < self.marks.len() {
            self.marks[node.0]
        } else {
            None
        }
    }
}

fn no_marks(n: usize) -> (r: Vec<Option<bool>>)
    ensures
        r@.len() == n,
        forall|i: int| 0 <= i < n ==> #[trigger] r@[i] is None,
{
    let mut out: Vec<Option<bool>> = Vec::new();
    for i in 0..n
        invariant
            out@.len() == i,
            forall|j: int| 0 <= j < i ==> #[trigger] out@[j] is None,
    {
        out.push(None);
    }
    out
}

proof fn lemma_pushed(s: Seq<NodeId>, n: NodeId, m: NodeId)
    ensures
        s.push(n).contains(m) <==> s.contains(m) || m == n,
{
    if s.contains(m) {
        let k = choose|k: int| 0 <= k < s.len() && s[k] == m;
        assert(s.push(n)[k] == m);
    }
    if m == n {
        assert(s.push(n)[s.len() as int] == m);
    }
}

pub(crate) proof fn lemma_present(t: Tree, s: Seq<NodeId>)
    ensures
        t.all_in(present(t, s)),
    decreases s.len(),
{
    if s.len() > 0 {
        lemma_present(t, s.drop_last());
    }
}

/// What a binding path names is in the document.
pub proof fn lemma_nodes_for_in(path: Seq<char>, t: Tree, env: Surroundings)
    ensures
        t.all_in(nodes_for(path, t, env)),
{
    if let (Ok(e), Some(root)) = (parse_model(path), t.root) {
        if let Ok(ValueModel::NodeSet(nodes)) = eval(e, t, at(root), env) {
            lemma_present(t, nodes);
        }
    }
}

/// Every node a binding path names, one per repeat instance.
pub(crate) fn nodes_named<E: Environment>(path: &str, instance: &Instance, env: &E) -> (r: Vec<
    NodeId,
>)
    requires
        instance@.wf(),
    ensures
        r@ == nodes_for(path@, instance@, env.model()),
        instance@.all_in(r@),
{
    let ghost t = instance@;
    let mut out: Vec<NodeId> = Vec::new();
    assert(out@ == Seq::<NodeId>::empty());
    let expr = match parse(path) {
        Err(_) => {
            return out;
        },
        Ok(expr) => expr,
    };
    let root = match instance.root() {
        None => {
            return out;
        },
        Some(root) => root,
    };
    match evaluate(&expr, instance, Context::at(root), env) {
        Ok(Value::NodeSet(nodes)) => {
            let n = nodes.len();
            assert(nodes@.take(0) == Seq::<NodeId>::empty());
            for i in 0..n
                invariant
                    t == instance@,
                    n == nodes@.len(),
                    out@ == present(t, nodes@.take(i as int)),
            {
                assert(nodes@.take(i + 1).drop_last() == nodes@.take(i as int));
                if nodes[i].0 < instance.len() {
                    out.push(nodes[i]);
                }
            }
            proof {
                assert(nodes@.take(n as int) == nodes@);
                lemma_present(t, nodes@);
            }
            out
        },
        _ => out,
    }
}

fn report(
    binding: &Binding,
    instance: &Instance,
    node: NodeId,
    kind: ViolationKind,
    message: Option<String>,
) -> (r: Violation)
    requires
        instance@.wf(),
        instance@.has(node),
    ensures
        r@ == finding(
            binding@,
            instance@,
            node,
            kind@,
            crate::rules::binding::inside(message),
        ),
{
    Violation {
        path: binding.path.clone(),
        node_path: instance.address_of(node),
        kind,
        message,
    }
}

/// A list with one finding more.
fn note(out: &mut Vec<Violation>, v: Violation)
    ensures
        violation_models(final(out)@) == violation_models(old(out)@) + seq![v@],
{
    let ghost was = out@;
    let ghost model = v@;
    out.push(v);
    assert(violation_models(out@) == violation_models(was) + seq![model]);
}

impl Rules {
    /// Order the calculations so each runs after what it reads.
    ///
    /// A cycle is an error rather than an iteration limit: a form whose
    /// calculations feed each other has no defined answer, and picking one
    /// by stopping after N rounds would make the result depend on N.
    pub fn new(bindings: Vec<Binding>) -> (r: Result<Rules, String>)
        ensures
            match ordering(binding_models(bindings@)) {
                Ok(order) => r matches Ok(rules) && rules@ == (RulesModel {
                    bindings: binding_models(bindings@),
                    order,
                }) && rules@.wf(),
                Err(e) => r matches Err(m) && m@ == e,
            },
    {
        match sort(&bindings) {
            Err(e) => Err(e),
            Ok(calculation_order) => {
                let r = Rules { bindings, calculation_order };
                assert(r@.wf()) by {
                    assert forall|k: int| 0 <= k < r@.order.len() implies 0 <= #[trigger] r@.order[k]
                        < r@.bindings.len() by {
                        assert(r.calculation_order@[k] < bindings@.len());
                    }
                }
                Ok(r)
            },
        }
    }

    proof fn lemma_bindings(&self)
        ensures
            self@.bindings == binding_models(self.bindings@),
            self@.bindings.len() == self.bindings@.len(),
            forall|i: int|
                0 <= i < self.bindings@.len() ==> #[trigger] self@.bindings[i]
                    == self.bindings@[i]@,
    {
    }

    /// How many bindings there are.
    pub(crate) fn count(&self) -> (r: usize)
        ensures
            r == self@.bindings.len(),
    {
        self.bindings.len()
    }

    /// The binding at an index.
    pub(crate) fn binding(&self, i: usize) -> (r: &Binding)
        requires
            i < self@.bindings.len(),
        ensures
            r@ == self@.bindings[i as int],
    {
        &self.bindings[i]
    }

    /// The bindings that calculate, by index, in the order they must run.
    pub(crate) fn order(&self) -> (r: &Vec<usize>)
        ensures
            ints(r@) == self@.order,
            r@.len() == self@.order.len(),
    {
        &self.calculation_order
    }

    /// What each node's own bindings say of its relevance.
    fn own_marks<E: Environment>(
        &self,
        instance: &Instance,
        env: &E,
        violations: &mut Vec<Violation>,
    ) -> (r: Vec<Option<bool>>)
        requires
            instance@.wf(),
        ensures
            r@.len() == instance@.nodes.len(),
            forall|n: int|
                0 <= n < r@.len() ==> #[trigger] r@[n] == own_relevance(
                    self@.bindings,
                    self@.bindings.len() as int,
                    instance@,
                    NodeId(n as usize),
                    env.model(),
                ),
            violation_models(final(violations)@) == violation_models(old(violations)@) + findings(
                Aspect::Relevance,
                self@.bindings,
                in_form_order(self@.bindings.len()),
                0,
                instance@,
                instance@,
                env.model(),
            ),
    {
        let ghost t = instance@;
        let ghost m = self@.bindings;
        let ghost e = env.model();
        let ghost list = in_form_order(m.len());
        proof {
            self.lemma_bindings();
        }
        let mut own = no_marks(instance.len());
        let ghost goal = violation_models(violations@) + findings(
            Aspect::Relevance,
            m,
            list,
            0,
            t, t,
            e,
        );
        let n = self.bindings.len();
        for i in 0..n
            invariant
                t == instance@,
                t.wf(),
                e == env.model(),
                m == self@.bindings,
                list == in_form_order(m.len()),
                n == m.len(),
                n == self.bindings@.len(),
                own@.len() == t.nodes.len(),
                forall|x: int|
                    0 <= x < own@.len() ==> #[trigger] own@[x] == own_relevance(
                        m,
                        i as int,
                        t,
                        NodeId(x as usize),
                        e,
                    ),
                goal == violation_models(violations@) + findings(
                    Aspect::Relevance,
                    m,
                    list,
                    i as int,
                    t, t,
                    e,
                ),
        {
            proof {
                self.lemma_bindings();
            }
            let binding = &self.bindings[i];
            let ghost b = m[i as int];
            assert(b == binding@);
            let nodes = nodes_named(binding.path.as_str(), instance, env);
            let ghost start = violation_models(violations@);
            let ghost rest = findings(Aspect::Relevance, m, list, i + 1, t, t, e);
            assert(findings(Aspect::Relevance, m, list, i as int, t, t, e) == binding_findings(
                Aspect::Relevance,
                m,
                b,
                nodes@,
                0,
                t, t,
                e,
            ) + rest);
            let ghost mine = binding_findings(Aspect::Relevance, m, b, nodes@, 0, t, t, e);
            match &binding.relevant {
                None => {
                    proof {
                        lemma_no_relevance(m, b, nodes@, 0, t, e);
                        assert(start + (Seq::<ViolationModel>::empty() + rest) == start + rest);
                    }
                },
                Some(relevant) => {
                    self.judge_nodes(relevant, binding, &nodes, instance, env, &mut own, violations);
                    proof {
                        assert(start + (mine + rest) == violation_models(violations@) + rest);
                        assert forall|x: int| 0 <= x < own@.len() implies #[trigger] own@[x]
                            == own_relevance(m, i + 1, t, NodeId(x as usize), e) by {}
                    }
                },
            }
        }
        assert(violation_models(violations@) + Seq::<ViolationModel>::empty() == violation_models(
            violations@,
        ));
        own
    }

    /// Judge the nodes of one binding.
    fn judge_nodes<E: Environment>(
        &self,
        relevant: &Expr,
        binding: &Binding,
        nodes: &Vec<NodeId>,
        instance: &Instance,
        env: &E,
        own: &mut Vec<Option<bool>>,
        violations: &mut Vec<Violation>,
    )
        requires
            instance@.wf(),
            instance@.all_in(nodes@),
            old(own)@.len() == instance@.nodes.len(),
            binding@.relevant == Some(relevant@),
        ensures
            final(own)@.len() == old(own)@.len(),
            forall|x: int|
                0 <= x < final(own)@.len() ==> #[trigger] final(own)@[x] == if nodes@.contains(
                    NodeId(x as usize),
                ) {
                    Some(judged(relevant@, instance@, NodeId(x as usize), env.model()))
                } else {
                    old(own)@[x]
                },
            violation_models(final(violations)@) == violation_models(old(violations)@)
                + binding_findings(
                Aspect::Relevance,
                self@.bindings,
                binding@,
                nodes@,
                0,
                instance@,
                instance@,
                env.model(),
            ),
    {
        let ghost t = instance@;
        let ghost e = env.model();
        let ghost m = self@.bindings;
        let ghost b = binding@;
        let ghost before = own@;
        let ghost goal = violation_models(violations@) + binding_findings(
            Aspect::Relevance,
            m,
            b,
            nodes@,
            0,
            t, t,
            e,
        );
        let n = nodes.len();
        for j in 0..n
            invariant
                t == instance@,
                t.wf(),
                e == env.model(),
                b == binding@,
                b.relevant == Some(relevant@),
                n == nodes@.len(),
                t.all_in(nodes@),
                own@.len() == t.nodes.len(),
                before.len() == own@.len(),
                forall|x: int|
                    0 <= x < own@.len() ==> #[trigger] own@[x] == if nodes@.take(
                        j as int,
                    ).contains(NodeId(x as usize)) {
                        Some(judged(relevant@, t, NodeId(x as usize), e))
                    } else {
                        before[x]
                    },
                goal == violation_models(violations@) + binding_findings(
                    Aspect::Relevance,
                    m,
                    b,
                    nodes@,
                    j as int,
                    t, t,
                    e,
                ),
        {
            let node = nodes[j];
            assert(t.has(nodes@[j as int]));
            let ghost was = own@;
            let ghost start = violation_models(violations@);
            let ghost rest = binding_findings(Aspect::Relevance, m, b, nodes@, j + 1, t, t, e);
            let ghost mine = relevance_finding(b, t, node, e);
            assert(binding_findings(Aspect::Relevance, m, b, nodes@, j as int, t, t, e) == mine + rest);
            match evaluate(relevant, instance, Context::at(node), env) {
                Ok(value) => {
                    own.set(node.0, Some(value.to_boolean(instance)));
                    assert(start + (mine + rest) == start + rest);
                },
                Err(why) => {
                    own.set(node.0, Some(true));
                    note(
                        violations,
                        report(binding, instance, node, ViolationKind::Failed(why), None),
                    );
                    assert(start + (mine + rest) == violation_models(violations@) + rest);
                },
            }
            proof {
                assert(nodes@.take(j + 1) == nodes@.take(j as int).push(node));
                assert forall|x: int| 0 <= x < own@.len() implies #[trigger] own@[x]
                    == if nodes@.take(j + 1).contains(NodeId(x as usize)) {
                    Some(judged(relevant@, t, NodeId(x as usize), e))
                } else {
                    before[x]
                } by {
                    lemma_pushed(nodes@.take(j as int), node, NodeId(x as usize));
                }
            }
        }
        proof {
            assert(nodes@.take(n as int) == nodes@);
            assert(violation_models(violations@) + Seq::<ViolationModel>::empty()
                == violation_models(violations@));
        }
    }

    /// Relevance of every node a binding names, with the cascade applied.
    ///
    /// A question inside an irrelevant group is irrelevant however its own
    /// expression evaluates. Skipping the cascade is the classic way to
    /// enforce a constraint on an answer the enumerator was never shown.
    pub fn relevance<E: Environment>(
        &self,
        instance: &Instance,
        env: &E,
        violations: &mut Vec<Violation>,
    ) -> (r: Relevance)
        requires
            instance@.wf(),
        ensures
            forall|n: NodeId|
                instance@.has(n) ==> #[trigger] r.of(n) == relevance_of(
                    self@.bindings,
                    instance@,
                    n,
                    env.model(),
                ),
            forall|n: NodeId| !instance@.has(n) ==> #[trigger] r.of(n) is None,
            violation_models(final(violations)@) == violation_models(old(violations)@) + findings(
                Aspect::Relevance,
                self@.bindings,
                in_form_order(self@.bindings.len()),
                0,
                instance@,
                instance@,
                env.model(),
            ),
    {
        let ghost t = instance@;
        let ghost m = self@.bindings;
        let ghost e = env.model();
        proof {
            self.lemma_bindings();
        }
        let own = self.own_marks(instance, env, violations);
        let mut marks = no_marks(instance.len());
        let n = self.bindings.len();
        for i in 0..n
            invariant
                t == instance@,
                t.wf(),
                e == env.model(),
                m == self@.bindings,
                n == m.len(),
                n == self.bindings@.len(),
                own@.len() == t.nodes.len(),
                marks@.len() == t.nodes.len(),
                forall|x: int|
                    0 <= x < own@.len() ==> #[trigger] own@[x] == own_relevance(
                        m,
                        m.len() as int,
                        t,
                        NodeId(x as usize),
                        e,
                    ),
                forall|x: int|
                    0 <= x < marks@.len() ==> #[trigger] marks@[x] == if is_named(
                        m,
                        i as int,
                        t,
                        NodeId(x as usize),
                        e,
                    ) {
                        Some(shown(m, t, NodeId(x as usize), e))
                    } else {
                        None
                    },
        {
            proof {
                self.lemma_bindings();
            }
            let binding = &self.bindings[i];
            assert(m[i as int] == binding@);
            let nodes = nodes_named(binding.path.as_str(), instance, env);
            let len = nodes.len();
            for j in 0..len
                invariant
                    t == instance@,
                    t.wf(),
                    e == env.model(),
                    len == nodes@.len(),
                    i < n,
                    n == m.len(),
                    nodes@ == nodes_for(m[i as int].path, t, e),
                    t.all_in(nodes@),
                    own@.len() == t.nodes.len(),
                    marks@.len() == t.nodes.len(),
                    forall|x: int|
                        0 <= x < own@.len() ==> #[trigger] own@[x] == own_relevance(
                            m,
                            m.len() as int,
                            t,
                            NodeId(x as usize),
                            e,
                        ),
                    forall|x: int|
                        0 <= x < marks@.len() ==> #[trigger] marks@[x] == if is_named(
                            m,
                            i as int,
                            t,
                            NodeId(x as usize),
                            e,
                        ) || nodes@.take(j as int).contains(NodeId(x as usize)) {
                            Some(shown(m, t, NodeId(x as usize), e))
                        } else {
                            None
                        },
            {
                let node = nodes[j];
                assert(t.has(nodes@[j as int]));
                let visible = is_shown(&own, instance, node);
                assert(visible == shown(m, t, node, e)) by {
                    assert(own@[node.0 as int] == own_relevance(m, m.len() as int, t, node, e));
                    t.lemma_ancestors_in(node);
                    assert forall|k: int| 0 <= k < t.ancestors(node).len() implies (
                    own@[(#[trigger] t.ancestors(node)[k]).0 as int] == Some(false))
                        == hidden_itself(m, t, t.ancestors(node)[k], e) by {
                        assert(t.has(t.ancestors(node)[k]));
                    }
                }
                let ghost was = marks@;
                marks.set(node.0, Some(visible));
                proof {
                    assert(nodes@.take(j + 1) == nodes@.take(j as int).push(node));
                    assert forall|x: int| 0 <= x < marks@.len() implies #[trigger] marks@[x]
                        == if is_named(m, i as int, t, NodeId(x as usize), e) || nodes@.take(
                        j + 1,
                    ).contains(NodeId(x as usize)) {
                        Some(shown(m, t, NodeId(x as usize), e))
                    } else {
                        None
                    } by {
                        lemma_pushed(nodes@.take(j as int), node, NodeId(x as usize));
                    }
                }
            }
            proof {
                assert(nodes@.take(len as int) == nodes@);
                assert forall|x: int| 0 <= x < marks@.len() implies #[trigger] marks@[x]
                    == if is_named(m, i + 1, t, NodeId(x as usize), e) {
                    Some(shown(m, t, NodeId(x as usize), e))
                } else {
                    None
                } by {
                    let id = NodeId(x as usize);
                    if is_named(m, i as int, t, id, e) {
                        let k = choose|k: int|
                            0 <= k < i && nodes_for((#[trigger] m[k]).path, t, e).contains(id);
                        assert(nodes_for(m[k].path, t, e).contains(id));
                    }
                    if nodes@.contains(id) {
                        assert(nodes_for(m[i as int].path, t, e).contains(id));
                    }
                    if is_named(m, i + 1, t, id, e) {
                        let k = choose|k: int|
                            0 <= k < i + 1 && nodes_for((#[trigger] m[k]).path, t, e).contains(id);
                        if k < i {
                            assert(is_named(m, i as int, t, id, e));
                        }
                    }
                }
            }
        }
        let r = Relevance { marks };
        proof {
            assert forall|x: NodeId| instance@.has(x) implies #[trigger] r.of(x) == relevance_of(
                m,
                t,
                x,
                e,
            ) by {
                assert(marks@[x.0 as int] == r.of(x));
            }
        }
        r
    }
}

/// Whether neither a node nor one above it is marked as irrelevant.
fn is_shown(own: &Vec<Option<bool>>, instance: &Instance, node: NodeId) -> (r: bool)
    requires
        instance@.wf(),
        instance@.has(node),
        own@.len() == instance@.nodes.len(),
    ensures
        r == (own@[node.0 as int] != Some(false) && forall|k: int|
            0 <= k < instance@.ancestors(node).len() ==> own@[(#[trigger] instance@.ancestors(
                node,
            )[k]).0 as int] != Some(false)),
{
    if let Some(false) = own[node.0] {
        return false;
    }
    let up = instance.ancestors(node);
    let n = up.len();
    for k in 0..n
        invariant
            n == up@.len(),
            up@ == instance@.ancestors(node),
            instance@.all_in(up@),
            own@.len() == instance@.nodes.len(),
            forall|j: int|
                0 <= j < k ==> own@[(#[trigger] instance@.ancestors(node)[j]).0 as int] != Some(
                    false,
                ),
    {
        assert(instance@.has(up@[k as int]));
        if let Some(false) = own[up[k].0] {
            assert(own@[instance@.ancestors(node)[k as int].0 as int] == Some(false));
            return false;
        }
    }
    true
}

proof fn lemma_no_relevance(
    bindings: Seq<BindingModel>,
    b: BindingModel,
    nodes: Seq<NodeId>,
    j: int,
    t: Tree,
    env: Surroundings,
)
    requires
        b.relevant is None,
        0 <= j,
    ensures
        binding_findings(Aspect::Relevance, bindings, b, nodes, j, t, t, env) == Seq::<
            ViolationModel,
        >::empty(),
    decreases nodes.len() - j,
{
    if j < nodes.len() {
        lemma_no_relevance(bindings, b, nodes, j + 1, t, env);
        assert(Seq::<ViolationModel>::empty() + Seq::<ViolationModel>::empty() == Seq::<
            ViolationModel,
        >::empty());
    }
}

/// Hold a node against its calculation, and put what that comes to in its
/// place in `derived`.
fn derive_node<E: Environment>(
    binding: &Binding,
    node: NodeId,
    instance: &Instance,
    derived: &mut Instance,
    env: &E,
    out: &mut Vec<Violation>,
)
    requires
        instance@.wf(),
        instance@.has(node),
        old(derived)@.wf(),
        old(derived)@.has(node),
    ensures
        final(derived)@ == with_calculated(binding@, old(derived)@, node, env.model()),
        final(derived)@.wf(),
        final(derived)@.nodes.len() == old(derived)@.nodes.len(),
        violation_models(final(out)@) == violation_models(old(out)@) + calculation_finding(
            binding@,
            instance@,
            old(derived)@,
            node,
            env.model(),
        ),
{
    let ghost before = derived@;
    check_calculation(binding, node, instance, derived, env, out);
    if let Some(calculate) = &binding.calculate {
        let computed = match evaluate(calculate, derived, Context::at(node), env) {
            Err(why) => Err(why),
            Ok(value) => value.text(derived),
        };
        if let Ok(text) = computed {
            if !same(derived.string_value(node).as_str(), text.as_str()) {
                proof {
                    before.lemma_with_value_wf(node, text@);
                }
                let ghost model = text@;
                derived.node_mut(node).value = text;
                assert(derived@ == before.with_value(node, model));
            }
        }
    }
}

fn check_calculation<E: Environment>(
    binding: &Binding,
    node: NodeId,
    instance: &Instance,
    derived: &Instance,
    env: &E,
    out: &mut Vec<Violation>,
)
    requires
        instance@.wf(),
        instance@.has(node),
        derived@.wf(),
    ensures
        violation_models(final(out)@) == violation_models(old(out)@) + calculation_finding(
            binding@,
            instance@,
            derived@,
            node,
            env.model(),
        ),
{
    let ghost start = violation_models(out@);
    assert(start + Seq::<ViolationModel>::empty() == start);
    if let Some(calculate) = &binding.calculate {
        let computed = match evaluate(calculate, derived, Context::at(node), env) {
            Err(why) => Err(why),
            Ok(value) => value.text(derived),
        };
        match computed {
            Err(why) => note(
                out,
                report(binding, instance, node, ViolationKind::Failed(why), None),
            ),
            Ok(computed) => {
                let stored = instance.string_value(node);
                if stored != computed {
                    note(
                        out,
                        report(
                            binding,
                            instance,
                            node,
                            ViolationKind::Calculation { stored, computed },
                            None,
                        ),
                    );
                }
            },
        }
    }
}

fn check_required<E: Environment>(
    binding: &Binding,
    node: NodeId,
    answered: bool,
    instance: &Instance,
    derived: &Instance,
    env: &E,
    out: &mut Vec<Violation>,
)
    requires
        instance@.wf(),
        instance@.has(node),
        derived@.wf(),
        answered == !is_blank(instance@.string_value(node)),
    ensures
        violation_models(final(out)@) == violation_models(old(out)@) + required_finding(
            binding@,
            instance@,
            derived@,
            node,
            env.model(),
        ),
{
    let ghost start = violation_models(out@);
    assert(start + Seq::<ViolationModel>::empty() == start);
    if let Some(required) = &binding.required {
        match evaluate(required, derived, Context::at(node), env) {
            Err(why) => note(
                out,
                report(binding, instance, node, ViolationKind::Failed(why), None),
            ),
            Ok(value) => {
                if value.to_boolean(derived) && !answered {
                    note(
                        out,
                        report(
                            binding,
                            instance,
                            node,
                            ViolationKind::Required,
                            copy_text(&binding.required_message),
                        ),
                    );
                }
            },
        }
    }
}

fn check_constraint<E: Environment>(
    binding: &Binding,
    node: NodeId,
    answered: bool,
    instance: &Instance,
    derived: &Instance,
    env: &E,
    out: &mut Vec<Violation>,
)
    requires
        instance@.wf(),
        instance@.has(node),
        derived@.wf(),
        answered == !is_blank(instance@.string_value(node)),
    ensures
        violation_models(final(out)@) == violation_models(old(out)@) + constraint_finding(
            binding@,
            instance@,
            derived@,
            node,
            env.model(),
        ),
{
    let ghost start = violation_models(out@);
    assert(start + Seq::<ViolationModel>::empty() == start);
    if !answered {
        return;
    }
    if let Some(constraint) = &binding.constraint {
        match evaluate(constraint, derived, Context::at(node), env) {
            Err(why) => note(
                out,
                report(binding, instance, node, ViolationKind::Failed(why), None),
            ),
            Ok(value) => {
                if !value.to_boolean(derived) {
                    note(
                        out,
                        report(
                            binding,
                            instance,
                            node,
                            ViolationKind::Constraint,
                            copy_text(&binding.constraint_message),
                        ),
                    );
                }
            },
        }
    }
}

/// Look at one node of a binding, by the values of `derived`.
fn check_node<E: Environment>(
    aspect: Aspect,
    Ghost(bindings): Ghost<Seq<BindingModel>>,
    binding: &Binding,
    hidden: bool,
    node: NodeId,
    instance: &Instance,
    derived: &Instance,
    env: &E,
    out: &mut Vec<Violation>,
)
    requires
        aspect != Aspect::Relevance,
        instance@.wf(),
        instance@.has(node),
        derived@.wf(),
        hidden == is_hidden(bindings, instance@, node, env.model()),
    ensures
        violation_models(final(out)@) == violation_models(old(out)@) + findings_at(
            aspect,
            bindings,
            binding@,
            instance@,
            derived@,
            node,
            env.model(),
        ),
{
    let ghost start = violation_models(out@);
    assert(start + Seq::<ViolationModel>::empty() == start);
    let answered = !blank(instance.string_value(node).as_str());
    let ghost mine = findings_at(
        aspect,
        bindings,
        binding@,
        instance@,
        derived@,
        node,
        env.model(),
    );
    match aspect {
        Aspect::Leftover => {
            if hidden && answered {
                check_calculation(binding, node, instance, derived, env, out);
                check_constraint(binding, node, answered, instance, derived, env, out);
                assert(violation_models(out@) == start + mine);
            }
        },
        _ => {
            if !hidden {
                check_required(binding, node, answered, instance, derived, env, out);
                check_constraint(binding, node, answered, instance, derived, env, out);
                assert(violation_models(out@) == start + mine);
            }
        },
    }
}

/// Whether a relevance is that of the nodes of a document.
spec fn is_relevance(
    relevance: &Relevance,
    bindings: Seq<BindingModel>,
    t: Tree,
    env: Surroundings,
) -> bool {
    forall|n: NodeId|
        t.has(n) ==> #[trigger] relevance.of(n) == relevance_of(bindings, t, n, env)
}

impl Rules {
    /// Look at the nodes of one binding, by the values of `derived`.
    fn check_binding<E: Environment>(
        &self,
        aspect: Aspect,
        binding: &Binding,
        relevance: &Relevance,
        instance: &Instance,
        derived: &Instance,
        env: &E,
        out: &mut Vec<Violation>,
    )
        requires
            aspect != Aspect::Relevance,
            instance@.wf(),
            derived@.wf(),
            derived@.nodes.len() == instance@.nodes.len(),
            is_relevance(relevance, self@.bindings, instance@, env.model()),
        ensures
            violation_models(final(out)@) == violation_models(old(out)@) + binding_findings(
                aspect,
                self@.bindings,
                binding@,
                nodes_for(binding@.path, instance@, env.model()),
                0,
                instance@,
                derived@,
                env.model(),
            ),
    {
        let ghost t = instance@;
        let ghost u = derived@;
        let ghost e = env.model();
        let ghost m = self@.bindings;
        let ghost b = binding@;
        let nodes = nodes_named(binding.path.as_str(), instance, env);
        let ghost goal = violation_models(out@) + binding_findings(
            aspect,
            m,
            b,
            nodes@,
            0,
            t,
            u,
            e,
        );
        let n = nodes.len();
        for j in 0..n
            invariant
                aspect != Aspect::Relevance,
                t == instance@,
                t.wf(),
                u == derived@,
                u.wf(),
                u.nodes.len() == t.nodes.len(),
                e == env.model(),
                m == self@.bindings,
                b == binding@,
                n == nodes@.len(),
                t.all_in(nodes@),
                is_relevance(relevance, m, t, e),
                goal == violation_models(out@) + binding_findings(
                    aspect,
                    m,
                    b,
                    nodes@,
                    j as int,
                    t,
                    u,
                    e,
                ),
        {
            let node = nodes[j];
            assert(t.has(nodes@[j as int]));
            let ghost start = violation_models(out@);
            let ghost rest = binding_findings(aspect, m, b, nodes@, j + 1, t, u, e);
            let ghost mine = findings_at(aspect, m, b, t, u, node, e);
            assert(binding_findings(aspect, m, b, nodes@, j as int, t, u, e) == mine + rest);
            assert(relevance.of(node) == relevance_of(m, t, node, e));
            let hidden = match relevance.get(node) {
                Some(false) => true,
                _ => false,
            };
            check_node(aspect, Ghost(m), binding, hidden, node, instance, derived, env, out);
            assert(start + (mine + rest) == start + mine + rest);
        }
        assert(violation_models(out@) + Seq::<ViolationModel>::empty() == violation_models(out@));
    }

    /// Look at the nodes of every binding, by the values of `derived`.
    fn check_bindings<E: Environment>(
        &self,
        aspect: Aspect,
        relevance: &Relevance,
        instance: &Instance,
        derived: &Instance,
        env: &E,
        out: &mut Vec<Violation>,
    )
        requires
            aspect != Aspect::Relevance,
            instance@.wf(),
            derived@.wf(),
            derived@.nodes.len() == instance@.nodes.len(),
            is_relevance(relevance, self@.bindings, instance@, env.model()),
        ensures
            violation_models(final(out)@) == violation_models(old(out)@) + findings(
                aspect,
                self@.bindings,
                in_form_order(self@.bindings.len()),
                0,
                instance@,
                derived@,
                env.model(),
            ),
    {
        let ghost t = instance@;
        let ghost u = derived@;
        let ghost e = env.model();
        let ghost m = self@.bindings;
        let ghost form = in_form_order(m.len());
        let ghost goal = violation_models(out@) + findings(aspect, m, form, 0, t, u, e);
        proof {
            self.lemma_bindings();
        }
        let n = self.bindings.len();
        for k in 0..n
            invariant
                aspect != Aspect::Relevance,
                t == instance@,
                t.wf(),
                u == derived@,
                u.wf(),
                u.nodes.len() == t.nodes.len(),
                e == env.model(),
                m == self@.bindings,
                form == in_form_order(m.len()),
                n == m.len(),
                n == self.bindings@.len(),
                is_relevance(relevance, m, t, e),
                goal == violation_models(out@) + findings(aspect, m, form, k as int, t, u, e),
        {
            proof {
                self.lemma_bindings();
            }
            let ghost b = m[k as int];
            let ghost start = violation_models(out@);
            let ghost mine = binding_findings(
                aspect,
                m,
                b,
                nodes_for(b.path, t, e),
                0,
                t,
                u,
                e,
            );
            let ghost rest = findings(aspect, m, form, k + 1, t, u, e);
            self.check_binding(
                aspect,
                &self.bindings[k],
                relevance,
                instance,
                derived,
                env,
                out,
            );
            assert(start + (mine + rest) == start + mine + rest);
        }
        assert(violation_models(out@) + Seq::<ViolationModel>::empty() == violation_models(out@));
    }

    /// The document with what the calculations come to, in the questions
    /// that are asked, and what they find of it.
    fn derive<E: Environment>(
        &self,
        relevance: &Relevance,
        instance: &Instance,
        env: &E,
        out: &mut Vec<Violation>,
    ) -> (r: Instance)
        requires
            self@.wf(),
            instance@.wf(),
            is_relevance(relevance, self@.bindings, instance@, env.model()),
        ensures
            r@ == derived(self@.bindings, self@.order, instance@, env.model()).tree,
            r@.wf(),
            r@.nodes.len() == instance@.nodes.len(),
            violation_models(final(out)@) == violation_models(old(out)@) + derived(
                self@.bindings,
                self@.order,
                instance@,
                env.model(),
            ).found,
    {
        let ghost t = instance@;
        let ghost e = env.model();
        let ghost m = self@.bindings;
        let ghost order = self@.order;
        let ghost start = violation_models(out@);
        let ghost all = derived(m, order, t, e);
        let mut r = instance.clone();
        let ghost mut found: Seq<ViolationModel> = Seq::empty();
        assert(start + found == start);
        let n = self.calculation_order.len();
        for k in 0..n
            invariant
                t == instance@,
                t.wf(),
                e == env.model(),
                m == self@.bindings,
                order == self@.order,
                self@.wf(),
                n == order.len(),
                n == self.calculation_order@.len(),
                r@.wf(),
                r@.nodes.len() == t.nodes.len(),
                is_relevance(relevance, m, t, e),
                violation_models(out@) == start + found,
                all == (Derived { tree: r@, found }).with_order(m, order, k as int, t, e),
        {
            proof {
                self.lemma_bindings();
                assert(order[k as int] == self.calculation_order@[k as int]);
                assert(0 <= order[k as int] < m.len());
            }
            let binding = &self.bindings[self.calculation_order[k]];
            let ghost b = m[order[k as int]];
            let nodes = nodes_named(binding.path.as_str(), instance, env);
            let ghost part = (Derived { tree: r@, found }).with_nodes(m, b, nodes@, 0, t, e);
            assert(all == part.with_order(m, order, k + 1, t, e));
            let c = nodes.len();
            for j in 0..c
                invariant
                    t == instance@,
                    t.wf(),
                    e == env.model(),
                    b == binding@,
                    c == nodes@.len(),
                    t.all_in(nodes@),
                    r@.wf(),
                    r@.nodes.len() == t.nodes.len(),
                    is_relevance(relevance, m, t, e),
                    violation_models(out@) == start + found,
                    part == (Derived { tree: r@, found }).with_nodes(
                        m,
                        b,
                        nodes@,
                        j as int,
                        t,
                        e,
                    ),
            {
                let node = nodes[j];
                assert(t.has(nodes@[j as int]));
                assert(relevance.of(node) == relevance_of(m, t, node, e));
                let hidden = match relevance.get(node) {
                    Some(false) => true,
                    _ => false,
                };
                if !hidden {
                    let ghost mine = calculation_finding(b, t, r@, node, e);
                    derive_node(binding, node, instance, &mut r, env, out);
                    proof {
                        assert(start + found + mine == start + (found + mine));
                        found = found + mine;
                    }
                }
            }
        }
        r
    }

    /// Check a filled instance against every rule.
    ///
    /// The order is the one a form engine uses, and it is not arbitrary:
    /// relevance first, because an irrelevant question has no answer to
    /// constrain and cannot be required; then calculations, so a constraint
    /// that reads a derived value sees the derived value.
    pub fn check<E: Environment>(&self, instance: &Instance, env: &E) -> (r: Vec<Violation>)
        requires
            self@.wf(),
            instance@.wf(),
        ensures
            violation_models(r@) == all_findings(
                self@.bindings,
                self@.order,
                instance@,
                env.model(),
            ),
    {
        let mut out: Vec<Violation> = Vec::new();
        assert(violation_models(out@) == Seq::<ViolationModel>::empty());
        let relevance = self.relevance(instance, env, &mut out);
        let ghost first = violation_models(out@);
        assert(first == findings(
            Aspect::Relevance,
            self@.bindings,
            in_form_order(self@.bindings.len()),
            0,
            instance@,
            instance@,
            env.model(),
        ));
        let derived = self.derive(&relevance, instance, env, &mut out);
        self.check_bindings(Aspect::Answer, &relevance, instance, &derived, env, &mut out);
        out
    }

    /// What the rules say of the values left in questions that are not
    /// asked.
    pub fn leftovers<E: Environment>(&self, instance: &Instance, env: &E) -> (r: Vec<Violation>)
        requires
            self@.wf(),
            instance@.wf(),
        ensures
            violation_models(r@) == all_leftovers(
                self@.bindings,
                self@.order,
                instance@,
                env.model(),
            ),
    {
        let mut problems: Vec<Violation> = Vec::new();
        let relevance = self.relevance(instance, env, &mut problems);
        let derived = self.derive(&relevance, instance, env, &mut problems);
        let mut out: Vec<Violation> = Vec::new();
        assert(violation_models(out@) == Seq::<ViolationModel>::empty());
        self.check_bindings(Aspect::Leftover, &relevance, instance, &derived, env, &mut out);
        let ghost all = all_leftovers(self@.bindings, self@.order, instance@, env.model());
        assert(Seq::<ViolationModel>::empty() + all == all);
        out
    }
}

} // verus!
