//! How the binds of a form become its rules.

use crate::parser::ast::ExprModel;
use crate::parser::grammar::parse_model;
use crate::rules::binding::BindingModel;
use crate::rules::form::{
    attribute_from, attribute_of, bind_model, binds_from, bound_expr, document, said, xform_rules,
};
use crate::text::is_blank;
use crate::tree::xml::form_tree;
use crate::tree::{NodeId, Tree};
use vstd::prelude::*;

verus! {

/// Whether the first attribute of a name that a node has holds a text.
pub open spec fn has_first(t: Tree, n: NodeId, name: Seq<char>, text: Seq<char>) -> bool {
    exists|k: int|
        0 <= k < t.attributes(n).len() && t.name(#[trigger] t.attributes(n)[k]) == name && t.value(
            t.attributes(n)[k],
        ) == text && forall|j: int|
            0 <= j < k ==> t.name(#[trigger] t.attributes(n)[j]) != name
}

/// Whether a node has an attribute of a name that says something, and says
/// this.
pub open spec fn states(t: Tree, n: NodeId, name: Seq<char>, text: Seq<char>) -> bool {
    has_first(t, n, name, text) && !is_blank(text)
}

/// Whether a node has no attribute of a name that says anything.
pub open spec fn is_silent(t: Tree, n: NodeId, name: Seq<char>) -> bool {
    forall|text: Seq<char>| !(#[trigger] states(t, n, name, text))
}

proof fn lemma_first_attribute(t: Tree, s: Seq<NodeId>, name: Seq<char>, i: int)
    requires
        0 <= i <= s.len(),
    ensures
        match attribute_from(t, s, name, i) {
            Some(text) => exists|k: int|
                i <= k < s.len() && t.name(#[trigger] s[k]) == name && t.value(s[k]) == text
                    && forall|j: int| i <= j < k ==> t.name(#[trigger] s[j]) != name,
            None => forall|j: int| i <= j < s.len() ==> t.name(#[trigger] s[j]) != name,
        },
    decreases s.len() - i,
{
    if i < s.len() {
        lemma_first_attribute(t, s, name, i + 1);
        if t.name(s[i]) == name {
            assert(t.name(s[i]) == name && t.value(s[i]) == attribute_from(t, s, name, i)->0);
        } else if let Some(text) = attribute_from(t, s, name, i + 1) {
            let k = choose|k: int|
                i + 1 <= k < s.len() && t.name(#[trigger] s[k]) == name && t.value(s[k]) == text
                    && forall|j: int| i + 1 <= j < k ==> t.name(#[trigger] s[j]) != name;
            assert(t.name(s[k]) == name && t.value(s[k]) == text);
        }
    }
}

/// What is read off an attribute is what the first one of that name says.
pub proof fn law_attributes_are_read(t: Tree, n: NodeId, name: Seq<char>, text: Seq<char>)
    ensures
        attribute_of(t, n, name) == Some(text) <==> has_first(t, n, name, text),
        said(t, n, name) == Some(text) <==> states(t, n, name, text),
        said(t, n, name) is None <==> is_silent(t, n, name),
{
    lemma_attribute(t, n, name, text);
    match said(t, n, name) {
        Some(v) => {
            lemma_attribute(t, n, name, v);
            assert(states(t, n, name, v));
        },
        None => {
            assert forall|v: Seq<char>| !(#[trigger] states(t, n, name, v)) by {
                lemma_attribute(t, n, name, v);
            }
        },
    }
}

proof fn lemma_attribute(t: Tree, n: NodeId, name: Seq<char>, text: Seq<char>)
    ensures
        attribute_of(t, n, name) == Some(text) <==> has_first(t, n, name, text),
{
    let s = t.attributes(n);
    lemma_first_attribute(t, s, name, 0);
    if has_first(t, n, name, text) {
        let k = choose|k: int|
            0 <= k < s.len() && t.name(#[trigger] s[k]) == name && t.value(s[k]) == text
                && forall|j: int| 0 <= j < k ==> t.name(#[trigger] s[j]) != name;
        match attribute_of(t, n, name) {
            Some(v) => {
                let m = choose|m: int|
                    0 <= m < s.len() && t.name(#[trigger] s[m]) == name && t.value(s[m]) == v
                        && forall|j: int| 0 <= j < m ==> t.name(#[trigger] s[j]) != name;
                if m < k {
                    assert(t.name(s[m]) != name);
                } else if k < m {
                    assert(t.name(s[k]) != name);
                }
            },
            None => {
                assert(t.name(s[k]) != name);
            },
        }
    }
}

/// Whether a rule is what an attribute of a bind writes: an expression that
/// its text is read as, and none where it says nothing.
pub open spec fn is_written_by(
    rule: Option<ExprModel>,
    t: Tree,
    n: NodeId,
    name: Seq<char>,
) -> bool {
    match rule {
        Some(e) => exists|text: Seq<char>| #[trigger]
            states(t, n, name, text) && parse_model(text) == Ok::<ExprModel, Seq<char>>(e),
        None => is_silent(t, n, name),
    }
}

/// Whether words are what an attribute of a bind says.
pub open spec fn is_said_by(
    words: Option<Seq<char>>,
    t: Tree,
    n: NodeId,
    name: Seq<char>,
) -> bool {
    match words {
        Some(text) => states(t, n, name, text),
        None => is_silent(t, n, name),
    }
}

/// Whether a binding is the one that a bind element declares: at the path
/// that its nodeset names, or its ref where it has no nodeset, with its rules
/// and its messages.
pub open spec fn is_declared_by(b: BindingModel, t: Tree, n: NodeId) -> bool {
    &&& states(t, n, "nodeset"@, b.path) || (is_silent(t, n, "nodeset"@) && states(
        t,
        n,
        "ref"@,
        b.path,
    ))
    &&& is_written_by(b.relevant, t, n, "relevant"@)
    &&& is_written_by(b.calculate, t, n, "calculate"@)
    &&& is_written_by(b.constraint, t, n, "constraint"@)
    &&& is_written_by(b.readonly, t, n, "readonly"@)
    &&& is_written_by(b.required, t, n, "required"@)
    &&& is_said_by(b.constraint_message, t, n, "constraintMsg"@)
    &&& is_said_by(b.required_message, t, n, "requiredMsg"@)
}

proof fn lemma_written(t: Tree, n: NodeId, path: Seq<char>, name: Seq<char>)
    ensures
        bound_expr(t, n, path, name) matches Ok(rule) ==> is_written_by(rule, t, n, name),
{
    match said(t, n, name) {
        Some(text) => {
            law_attributes_are_read(t, n, name, text);
            if parse_model(text) is Ok {
                assert(states(t, n, name, text));
            }
        },
        None => law_attributes_are_read(t, n, name, name),
    }
}

proof fn lemma_said(t: Tree, n: NodeId, name: Seq<char>)
    ensures
        is_said_by(said(t, n, name), t, n, name),
{
    match said(t, n, name) {
        Some(text) => law_attributes_are_read(t, n, name, text),
        None => law_attributes_are_read(t, n, name, name),
    }
}

proof fn lemma_declared(t: Tree, n: NodeId)
    ensures
        bind_model(t, n) matches Ok(b) ==> is_declared_by(b, t, n),
{
    if let Ok(b) = bind_model(t, n) {
        lemma_said(t, n, "nodeset"@);
        lemma_said(t, n, "ref"@);
        lemma_written(t, n, b.path, "relevant"@);
        lemma_written(t, n, b.path, "calculate"@);
        lemma_written(t, n, b.path, "constraint"@);
        lemma_written(t, n, b.path, "readonly"@);
        lemma_written(t, n, b.path, "required"@);
        lemma_said(t, n, "constraintMsg"@);
        lemma_said(t, n, "requiredMsg"@);
    }
}

/// Whether a binding is what is made of a node, which is a bind.
spec fn is_made_of(b: BindingModel, t: Tree, n: NodeId) -> bool {
    t.name(n) == "bind"@ && bind_model(t, n) == Ok::<BindingModel, Seq<char>>(b)
}

proof fn lemma_made(t: Tree, s: Seq<NodeId>, i: int, k: int)
    requires
        0 <= i <= k < s.len(),
        t.name(s[k]) == "bind"@,
        binds_from(t, s, i) is Ok,
    ensures
        exists|j: int|
            0 <= j < binds_from(t, s, i)->Ok_0.len() && is_made_of(
                #[trigger] binds_from(t, s, i)->Ok_0[j],
                t,
                s[k],
            ),
    decreases k - i,
{
    let r = binds_from(t, s, i)->Ok_0;
    if k == i {
        assert(is_made_of(r[0], t, s[k]));
    } else {
        let rest = binds_from(t, s, i + 1)->Ok_0;
        lemma_made(t, s, i + 1, k);
        let j = choose|j: int| 0 <= j < rest.len() && is_made_of(#[trigger] rest[j], t, s[k]);
        if t.name(s[i]) == "bind"@ {
            assert(r[j + 1] == rest[j]);
            assert(is_made_of(r[j + 1], t, s[k]));
        } else {
            assert(is_made_of(r[j], t, s[k]));
        }
    }
}

proof fn lemma_maker(t: Tree, s: Seq<NodeId>, i: int, j: int)
    requires
        0 <= i <= s.len(),
        binds_from(t, s, i) is Ok,
        0 <= j < binds_from(t, s, i)->Ok_0.len(),
    ensures
        exists|k: int|
            i <= k < s.len() && is_made_of(binds_from(t, s, i)->Ok_0[j], t, #[trigger] s[k]),
    decreases s.len() - i,
{
    let r = binds_from(t, s, i)->Ok_0;
    if i < s.len() {
        let rest = binds_from(t, s, i + 1)->Ok_0;
        if t.name(s[i]) != "bind"@ {
            lemma_maker(t, s, i + 1, j);
            let k = choose|k: int| i + 1 <= k < s.len() && is_made_of(rest[j], t, #[trigger] s[k]);
            assert(is_made_of(r[j], t, s[k]));
        } else if j == 0 {
            assert(is_made_of(r[j], t, s[i]));
        } else {
            lemma_maker(t, s, i + 1, j - 1);
            let k = choose|k: int|
                i + 1 <= k < s.len() && is_made_of(rest[j - 1], t, #[trigger] s[k]);
            assert(r[j] == rest[j - 1]);
            assert(is_made_of(r[j], t, s[k]));
        }
    }
}

/// The rules of a form are its binds: each `<bind>` of the document declares
/// a binding, and every binding is declared by one.
pub proof fn law_rules_are_the_binds(xml: Seq<char>, t: Tree, root: NodeId)
    requires
        form_tree(xml) == Ok::<Tree, Seq<char>>(t),
        t.root == Some(root),
        xform_rules(xml) is Ok,
    ensures
        ({
            let s = document(t, root);
            let r = xform_rules(xml)->Ok_0.bindings;
            &&& r.len() > 0
            &&& forall|k: int|
                0 <= k < s.len() && t.name(#[trigger] s[k]) == "bind"@ ==> exists|j: int|
                    0 <= j < r.len() && is_declared_by(#[trigger] r[j], t, s[k])
            &&& forall|j: int|
                0 <= j < r.len() ==> exists|k: int|
                    0 <= k < s.len() && t.name(#[trigger] s[k]) == "bind"@ && is_declared_by(
                        #[trigger] r[j],
                        t,
                        s[k],
                    )
        }),
{
    let s = document(t, root);
    let r = xform_rules(xml)->Ok_0.bindings;
    assert(binds_from(t, s, 0) == Ok::<Seq<BindingModel>, Seq<char>>(r));
    assert forall|k: int| 0 <= k < s.len() && t.name(#[trigger] s[k]) == "bind"@ implies exists|
        j: int,
    |
        0 <= j < r.len() && is_declared_by(#[trigger] r[j], t, s[k]) by {
        lemma_made(t, s, 0, k);
        let j = choose|j: int| 0 <= j < r.len() && is_made_of(#[trigger] r[j], t, s[k]);
        lemma_declared(t, s[k]);
        assert(is_declared_by(r[j], t, s[k]));
    }
    assert forall|j: int| 0 <= j < r.len() implies exists|k: int|
        0 <= k < s.len() && t.name(#[trigger] s[k]) == "bind"@ && is_declared_by(
            #[trigger] r[j],
            t,
            s[k],
        ) by {
        lemma_maker(t, s, 0, j);
        let k = choose|k: int| 0 <= k < s.len() && is_made_of(r[j], t, #[trigger] s[k]);
        lemma_declared(t, s[k]);
        assert(t.name(s[k]) == "bind"@ && is_declared_by(r[j], t, s[k]));
    }
}

/// A form with an expression that cannot be read, in a bind, is refused.
pub proof fn law_unreadable_rules_are_refused(
    xml: Seq<char>,
    t: Tree,
    root: NodeId,
    k: int,
    name: Seq<char>,
    text: Seq<char>,
)
    requires
        form_tree(xml) == Ok::<Tree, Seq<char>>(t),
        t.root == Some(root),
        0 <= k < document(t, root).len(),
        t.name(document(t, root)[k]) == "bind"@,
        name == "relevant"@ || name == "calculate"@ || name == "constraint"@ || name
            == "readonly"@ || name == "required"@,
        states(t, document(t, root)[k], name, text),
        parse_model(text) is Err,
    ensures
        xform_rules(xml) is Err,
{
    let s = document(t, root);
    law_attributes_are_read(t, s[k], name, text);
    lemma_refused(t, s, 0, k);
}

proof fn lemma_refused(t: Tree, s: Seq<NodeId>, i: int, k: int)
    requires
        0 <= i <= k < s.len(),
        t.name(s[k]) == "bind"@,
        bind_model(t, s[k]) is Err,
    ensures
        binds_from(t, s, i) is Err,
    decreases k - i,
{
    if i < k {
        lemma_refused(t, s, i + 1, k);
    }
}

} // verus!
