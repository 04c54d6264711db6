//! The blueprints of a form: the blank instance, and one blank row for each
//! repeat.

use crate::rules::form::{subtree, tables_wf};
use crate::session::keeping::lemma_subtree_together;
use crate::table::{in_key_order, with_entry, Table};
use crate::text::{cat2, chars_of, same, slice, span_back, start_of_run, Class};
use crate::tree::xml::form_tree;
use crate::tree::{Instance, NodeId, Tree};
use vstd::prelude::*;

verus! {

/// The first `<instance>` of a list, from the node at `i` on.
pub open spec fn first_instance(t: Tree, s: Seq<NodeId>, i: int) -> Option<NodeId>
    decreases s.len() - i,
{
    if i < 0 || i >= s.len() {
        None
    } else if t.name(s[i]) == "instance"@ {
        Some(s[i])
    } else {
        first_instance(t, s, i + 1)
    }
}

/// The blank instance an XForm carries as its template: what is in the first
/// `<instance>`, the primary one by definition.
pub open spec fn blank_of(xform: Seq<char>) -> Result<Tree, Seq<char>> {
    match form_tree(xform) {
        Err(e) => Err("XForm XML: "@ + e),
        Ok(t) => match t.root {
            None => Err("the XForm has no root element"@),
            Some(root) => match first_instance(t, t.descendants(root), 0) {
                None => Err("the XForm has no primary instance"@),
                Some(primary) => if t.children(primary).len() == 0 {
                    Err("the XForm's primary instance is empty"@)
                } else {
                    Ok(t.subtree(t.children(primary)[0]))
                },
            },
        },
    }
}

/// The attributes of a list that mark a template, from the one at `i` on.
pub open spec fn markers_from(t: Tree, s: Seq<NodeId>, i: int) -> Seq<NodeId>
    decreases s.len() - i,
{
    if i < 0 || i >= s.len() {
        Seq::empty()
    } else if t.name(s[i]) == "template"@ {
        seq![s[i]] + markers_from(t, s, i + 1)
    } else {
        markers_from(t, s, i + 1)
    }
}

/// The attributes that mark an element as a template. They arrive as
/// `template`: instances keep local names.
pub open spec fn markers(t: Tree, n: NodeId) -> Seq<NodeId> {
    markers_from(t, t.attributes(n), 0)
}

/// The tree without some attributes, from the one at `i` on.
pub open spec fn stripped_from(t: Tree, s: Seq<NodeId>, i: int) -> Tree
    decreases s.len() - i,
{
    if i < 0 || i >= s.len() {
        t
    } else {
        stripped_from(t.stripped(s[i]), s, i + 1)
    }
}

/// A copy of an element that is no template: a row made from it must not
/// carry the marker.
pub open spec fn blueprint(t: Tree, n: NodeId) -> Tree {
    let copy = t.subtree(n);
    stripped_from(copy, markers(copy, NodeId(0)), 0)
}

/// Those of a list of nodes, from the one at `i` on, that are templates.
pub open spec fn templates_from(t: Tree, s: Seq<NodeId>, i: int) -> Seq<NodeId>
    decreases s.len() - i,
{
    if i < 0 || i >= s.len() {
        Seq::empty()
    } else if markers(t, s[i]).len() > 0 {
        seq![s[i]] + templates_from(t, s, i + 1)
    } else {
        templates_from(t, s, i + 1)
    }
}

/// A path without a position at its end: a template is the blueprint for
/// every row, not for one of them.
pub open spec fn unpositioned(path: Seq<char>) -> Seq<char> {
    let at = span_back(path, path.len() as int, Class::Not('['));
    if at > 0 && path.last() == ']' {
        path.take(at - 1)
    } else {
        path
    }
}

/// An instance, and what has been lifted out of it.
pub struct Lifting {
    pub tree: Tree,
    pub found: Seq<(Seq<char>, Tree)>,
}

/// Nodes lifted out, from the one at `i` on.
pub open spec fn lifted_from(l: Lifting, s: Seq<NodeId>, i: int) -> Lifting
    decreases s.len() - i,
{
    if i < 0 || i >= s.len() {
        l
    } else {
        lifted_from(
            Lifting {
                tree: l.tree.detached(s[i]),
                found: with_entry(
                    l.found,
                    unpositioned(l.tree.path_of(s[i])),
                    blueprint(l.tree, s[i]),
                ),
            },
            s,
            i + 1,
        )
    }
}

/// An instance without its templates, and those by their paths. They are a
/// form's blueprint and not a respondent's answer: left in place they would
/// be counted as a row, validated as a row, and submitted as a row of empty
/// answers.
pub open spec fn lifted(t: Tree) -> Lifting {
    match t.root {
        None => Lifting { tree: t, found: Seq::empty() },
        Some(root) => {
            let l = lifted_from(
                Lifting { tree: t, found: Seq::empty() },
                templates_from(t, t.descendants(root), 0),
                0,
            );
            Lifting { tree: l.tree.reindexed(), ..l }
        },
    }
}

/// The blank instance an XForm carries as its template.
pub(crate) fn blank_instance(xform: &str) -> (r: Result<Instance, String>)
    ensures
        match blank_of(xform@) {
            Ok(t) => r matches Ok(instance) && instance@ == t && t.hangs_together(NodeId(0)),
            Err(e) => r matches Err(m) && m@ == e,
        },
{
    let document = match Instance::from_form(xform) {
        Err(e) => {
            return Err(cat2("XForm XML: ", e.as_str()));
        },
        Ok(document) => document,
    };
    let root = match document.root() {
        None => {
            return Err("the XForm has no root element".to_string());
        },
        Some(root) => root,
    };
    let ghost t = document@;
    let nodes = document.descendants(root);
    let n = nodes.len();
    for i in 0..n
        invariant
            t == document@,
            t.as_read(),
            form_tree(xform@) == Ok::<Tree, Seq<char>>(t),
            t.root == Some(root),
            nodes@ == t.descendants(root),
            n == nodes@.len(),
            t.all_in(nodes@),
            first_instance(t, nodes@, 0) == first_instance(t, nodes@, i as int),
    {
        let node = nodes[i];
        assert(t.has(nodes@[i as int]));
        if same(document.node(node).name.as_str(), "instance") {
            let children = document.children(node);
            proof {
                t.lemma_children_in(node);
            }
            if children.len() == 0 {
                return Err("the XForm's primary instance is empty".to_string());
            }
            assert(t.has(children@[0]));
            proof {
                t.lemma_size_fits(children@[0]);
                lemma_subtree_together(t, children@[0]);
            }
            return Ok(subtree(&document, children[0]));
        }
    }
    Err("the XForm has no primary instance".to_string())
}

fn markers_of(instance: &Instance, node: NodeId) -> (r: Vec<NodeId>)
    requires
        instance@.wf(),
        instance@.has(node),
    ensures
        r@ == markers(instance@, node),
        instance@.all_in(r@),
{
    let ghost t = instance@;
    let ids = instance.attributes(node);
    let ghost all = markers_from(t, ids@, 0);
    let mut out: Vec<NodeId> = Vec::new();
    assert(out@ + all == all);
    let n = ids.len();
    for i in 0..n
        invariant
            t == instance@,
            n == ids@.len(),
            t.all_in(ids@),
            t.all_in(out@),
            all == out@ + markers_from(t, ids@, i as int),
    {
        let ghost was = out@;
        assert(t.has(ids@[i as int]));
        if same(instance.node(ids[i]).name.as_str(), "template") {
            out.push(ids[i]);
        }
        assert(was + markers_from(t, ids@, i as int) == out@ + markers_from(t, ids@, i + 1));
    }
    assert(out@ + Seq::<NodeId>::empty() == out@);
    out
}

fn blueprint_of(instance: &Instance, node: NodeId) -> (r: Instance)
    requires
        instance@.wf(),
        instance@.has(node),
    ensures
        r@ == blueprint(instance@, node),
        r@.wf(),
{
    let mut copy = subtree(instance, node);
    let ids = markers_of(&copy, NodeId(0));
    let ghost goal = stripped_from(copy@, ids@, 0);
    let ghost size = copy@.nodes.len();
    let n = ids.len();
    for i in 0..n
        invariant
            n == ids@.len(),
            copy@.wf(),
            copy@.all_in(ids@),
            goal == stripped_from(copy@, ids@, i as int),
    {
        let ghost before = copy@;
        assert(before.has(ids@[i as int]));
        copy.strip(ids[i]);
        assert(copy@.nodes.len() == before.nodes.len());
        assert(copy@.all_in(ids@)) by {
            assert forall|k: int| 0 <= k < ids@.len() implies copy@.has(#[trigger] ids@[k]) by {
                assert(before.has(ids@[k]));
            }
        }
    }
    copy
}

fn without_position(path: &str) -> (r: String)
    ensures
        r@ == unpositioned(path@),
{
    let v = chars_of(path);
    let at = start_of_run(&v, v.len(), Class::Not('['));
    if at > 0 && v[v.len() - 1] == ']' {
        let r = slice(&v, 0, at - 1);
        assert(r@ == path@.take(at - 1));
        r
    } else {
        path.to_string()
    }
}

fn templates_of(instance: &Instance, root: NodeId) -> (r: Vec<NodeId>)
    requires
        instance@.wf(),
        instance@.has(root),
    ensures
        r@ == templates_from(instance@, instance@.descendants(root), 0),
        instance@.all_in(r@),
{
    let ghost t = instance@;
    let nodes = instance.descendants(root);
    let ghost all = templates_from(t, nodes@, 0);
    let mut out: Vec<NodeId> = Vec::new();
    assert(out@ + all == all);
    let n = nodes.len();
    for i in 0..n
        invariant
            t == instance@,
            t.wf(),
            n == nodes@.len(),
            t.all_in(nodes@),
            t.all_in(out@),
            all == out@ + templates_from(t, nodes@, i as int),
    {
        let ghost was = out@;
        assert(t.has(nodes@[i as int]));
        if markers_of(instance, nodes[i]).len() > 0 {
            out.push(nodes[i]);
        }
        assert(was + templates_from(t, nodes@, i as int) == out@ + templates_from(
            t,
            nodes@,
            i + 1,
        ));
    }
    assert(out@ + Seq::<NodeId>::empty() == out@);
    out
}

/// Take the template rows out of an instance, keyed by their path.
pub(crate) fn lift_templates(instance: &mut Instance) -> (r: Table<Instance>)
    requires
        old(instance)@.wf(),
    ensures
        final(instance)@ == lifted(old(instance)@).tree,
        r@ == lifted(old(instance)@).found,
        final(instance)@.wf(),
        old(instance)@.upright() ==> final(instance)@.upright(),
        tables_wf(r@),
        in_key_order(r@),
{
    let ghost t = instance@;
    let mut found: Table<Instance> = Table::new();
    let root = match instance.root() {
        None => {
            return found;
        },
        Some(root) => root,
    };
    let ids = templates_of(instance, root);
    let ghost goal = lifted_from(Lifting { tree: t, found: Seq::empty() }, ids@, 0);
    let n = ids.len();
    for i in 0..n
        invariant
            n == ids@.len(),
            instance@.wf(),
            t.upright() ==> instance@.upright(),
            instance@.all_in(ids@),
            tables_wf(found@),
            in_key_order(found@),
            goal == lifted_from(Lifting { tree: instance@, found: found@ }, ids@, i as int),
    {
        let ghost before = instance@;
        assert(before.has(ids@[i as int]));
        let path = without_position(instance.path_of(ids[i]).as_str());
        let copy = blueprint_of(instance, ids[i]);
        proof {
            crate::rules::form::lemma_tables_with(found@, path@, copy@);
        }
        found.insert(path.as_str(), copy);
        instance.detach(ids[i]);
        assert(instance@.nodes.len() == before.nodes.len());
        assert(instance@.all_in(ids@)) by {
            assert forall|k: int| 0 <= k < ids@.len() implies instance@.has(#[trigger] ids@[k]) by {
                assert(before.has(ids@[k]));
            }
        }
    }
    let ghost left = instance@;
    instance.reindex();
    proof {
        if left.upright() {
            left.lemma_same_nodes_upright(instance@);
        }
    }
    found
}

} // verus!
