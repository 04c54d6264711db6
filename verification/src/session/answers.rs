//! Answers by the path of their question.

use crate::eval::{Environment, Surroundings};
use crate::rules::checking::{nodes_for, nodes_named};
use crate::text::{
    cat3, cat5, chars_of, find, holds, same, slice, span_back, split, split_on, start_of_run, texts,
    Class,
};
use crate::tree::{bare_node, Instance, NodeId, NodeKind, Tree};
use vstd::prelude::*;

verus! {

/// The node that a path names, the first one where it names several.
pub open spec fn node_at(t: Tree, path: Seq<char>, env: Surroundings) -> Option<NodeId> {
    let nodes = nodes_for(path, t, env);
    if nodes.len() > 0 {
        Some(nodes[0])
    } else {
        None
    }
}

/// The answer at a path, which is empty for an unanswered question.
pub open spec fn answer_at(t: Tree, path: Seq<char>, env: Surroundings) -> Seq<char> {
    match node_at(t, path, env) {
        Some(n) => t.string_value(n),
        None => ""@,
    }
}

/// Those of a list of texts that are not empty.
pub open spec fn not_empty(s: Seq<Seq<char>>) -> Seq<Seq<char>>
    decreases s.len(),
{
    if s.len() == 0 {
        s
    } else if s.last().len() == 0 {
        not_empty(s.drop_last())
    } else {
        not_empty(s.drop_last()).push(s.last())
    }
}

/// The first text of a list, from the one at `i` on, that a positional step
/// is written in.
pub open spec fn first_indexed(s: Seq<Seq<char>>, i: int) -> Option<Seq<char>>
    decreases s.len() - i,
{
    if i < 0 || i >= s.len() {
        None
    } else if find(s[i], "["@) is Some {
        Some(s[i])
    } else {
        first_indexed(s, i + 1)
    }
}

/// The first node of a name in a list, from the one at `i` on.
pub open spec fn first_named(t: Tree, s: Seq<NodeId>, name: Seq<char>, i: int) -> Option<NodeId>
    decreases s.len() - i,
{
    if i < 0 || i >= s.len() {
        None
    } else if t.name(s[i]) == name {
        Some(s[i])
    } else {
        first_named(t, s, name, i + 1)
    }
}

impl Tree {
    /// The tree with a new element as the last child of a node.
    pub open spec fn with_element(
        self,
        parent: NodeId,
        name: Seq<char>,
        value: Seq<char>,
    ) -> Tree {
        self.grown(bare_node(NodeKind::Element, name, value)).appended(
            parent,
            NodeId(self.nodes.len() as usize),
        )
    }
}

/// The tree with the elements of a path below `here`, from the part at `k`
/// on, and in the last of them a new element with a value. An element that
/// is there is not made again.
pub open spec fn grown_along(
    t: Tree,
    here: NodeId,
    parts: Seq<Seq<char>>,
    k: int,
    leaf: Seq<char>,
    value: Seq<char>,
) -> Tree
    decreases parts.len() - k,
{
    if k < 0 || k >= parts.len() {
        t.with_element(here, leaf, value)
    } else {
        match first_named(t, t.children(here), parts[k], 0) {
            Some(child) => grown_along(t, child, parts, k + 1, leaf, value),
            None => grown_along(
                t.with_element(here, parts[k], ""@),
                NodeId(t.nodes.len() as usize),
                parts,
                k + 1,
                leaf,
                value,
            ),
        }
    }
}

/// The tree with a path that it did not have. A positional step names a row
/// that exists: where it did not resolve the row is not there, and rows come
/// from the form's own template.
pub open spec fn created_at(t: Tree, path: Seq<char>, value: Seq<char>) -> Result<
    Tree,
    Seq<char>,
> {
    let parts = not_empty(split_on(path, '/'));
    if parts.len() == 0 {
        Err("'"@ + path + "' names nothing"@)
    } else if first_indexed(parts, 0) is Some {
        Err(
            "'"@ + path + "' points at "@ + first_indexed(parts, 0)->0
                + ", which does not exist — add the row first with add_row()"@,
        )
    } else {
        match t.root {
            None => Err("the instance has no root"@),
            Some(root) => {
                let above = parts.drop_last();
                // The first part is the root itself.
                let below = if above.len() > 0 && t.name(root) == above[0] {
                    above.skip(1)
                } else {
                    above
                };
                Ok(grown_along(t, root, below, 0, parts.last(), value).reindexed())
            },
        }
    }
}

/// The tree with an answer. The path is created where the tree does not have
/// it: a form whose template omits a node still has to be able to hold its
/// answer.
pub open spec fn answered(t: Tree, path: Seq<char>, value: Seq<char>, env: Surroundings) -> Result<
    Tree,
    Seq<char>,
> {
    match node_at(t, path, env) {
        Some(n) => Ok(t.with_value(n, value)),
        None => created_at(t, path, value),
    }
}

/// Where the last `/` of a path stands.
pub open spec fn last_slash(path: Seq<char>) -> Option<int> {
    let at = span_back(path, path.len() as int, Class::Not('/'));
    if at > 0 {
        Some(at - 1)
    } else {
        None
    }
}

/// The path above a path, which is empty above the root.
pub open spec fn path_above(path: Seq<char>) -> Seq<char> {
    match last_slash(path) {
        Some(at) => path.take(at),
        None => ""@,
    }
}

/// The node that holds what a path names.
pub open spec fn holder(t: Tree, path: Seq<char>, env: Surroundings) -> Option<NodeId> {
    if path_above(path).len() == 0 {
        t.root
    } else {
        node_at(t, path_above(path), env)
    }
}

/// Those of a list of nodes that have a name.
pub open spec fn named(t: Tree, s: Seq<NodeId>, name: Seq<char>) -> Seq<NodeId>
    decreases s.len(),
{
    if s.len() == 0 {
        s
    } else if t.name(s.last()) == name {
        named(t, s.drop_last(), name).push(s.last())
    } else {
        named(t, s.drop_last(), name)
    }
}

/// The nodes that are the rows of a repeat, in document order.
pub open spec fn rows_of(t: Tree, path: Seq<char>, env: Surroundings) -> Seq<NodeId> {
    match last_slash(path) {
        None => Seq::empty(),
        Some(at) => match holder(t, path, env) {
            None => Seq::empty(),
            Some(parent) => named(t, t.children(parent), path.skip(at + 1)),
        },
    }
}

pub(crate) fn find_node<E: Environment>(instance: &Instance, path: &str, env: &E) -> (r: Option<
    NodeId,
>)
    requires
        instance@.wf(),
    ensures
        r == node_at(instance@, path@, env.model()),
        r matches Some(n) ==> instance@.has(n),
{
    let nodes = nodes_named(path, instance, env);
    if nodes.len() > 0 {
        assert(instance@.has(nodes@[0]));
        Some(nodes[0])
    } else {
        None
    }
}

fn parts_of(path: &str) -> (r: Vec<String>)
    ensures
        texts(r@) == not_empty(split_on(path@, '/')),
{
    let all = split(path, '/');
    let ghost s = split_on(path@, '/');
    let mut out: Vec<String> = Vec::new();
    let n = all.len();
    assert(s.take(0) == Seq::<Seq<char>>::empty());
    assert(texts(out@) == Seq::<Seq<char>>::empty());
    for i in 0..n
        invariant
            n == all@.len(),
            s == texts(all@),
            texts(out@) == not_empty(s.take(i as int)),
    {
        let ghost was = out@;
        assert(s.take(i + 1).drop_last() == s.take(i as int));
        assert(s.take(i + 1).last() == all@[i as int]@);
        if !all[i].as_str().is_empty() {
            out.push(all[i].clone());
            assert(texts(out@) == texts(was).push(all@[i as int]@));
        }
    }
    assert(s.take(n as int) == s);
    out
}

fn indexed_part(parts: &Vec<String>) -> (r: Option<String>)
    ensures
        match r {
            Some(p) => first_indexed(texts(parts@), 0) == Some(p@),
            None => first_indexed(texts(parts@), 0) is None,
        },
{
    let n = parts.len();
    for i in 0..n
        invariant
            n == parts@.len(),
            first_indexed(texts(parts@), 0) == first_indexed(texts(parts@), i as int),
    {
        assert(texts(parts@)[i as int] == parts@[i as int]@);
        if holds(parts[i].as_str(), "[") {
            return Some(parts[i].clone());
        }
    }
    None
}

/// The first node of a name in a list.
pub(crate) fn find_named(instance: &Instance, nodes: &Vec<NodeId>, name: &str) -> (r: Option<NodeId>)
    requires
        instance@.all_in(nodes@),
    ensures
        r == first_named(instance@, nodes@, name@, 0),
        r matches Some(n) ==> instance@.has(n),
{
    let ghost t = instance@;
    let n = nodes.len();
    for i in 0..n
        invariant
            t == instance@,
            n == nodes@.len(),
            t.all_in(nodes@),
            first_named(t, nodes@, name@, 0) == first_named(t, nodes@, name@, i as int),
    {
        assert(t.has(nodes@[i as int]));
        if same(instance.node(nodes[i]).name.as_str(), name) {
            return Some(nodes[i]);
        }
    }
    None
}

fn child_named(instance: &Instance, here: NodeId, name: &str) -> (r: Option<NodeId>)
    requires
        instance@.wf(),
        instance@.has(here),
    ensures
        r == first_named(instance@, instance@.children(here), name@, 0),
        r matches Some(n) ==> instance@.has(n),
{
    proof {
        instance@.lemma_children_in(here);
    }
    find_named(instance, &instance.children(here), name)
}

fn add_element(instance: &mut Instance, parent: NodeId, name: &str, value: &str) -> (id: NodeId)
    requires
        old(instance)@.wf(),
        old(instance)@.has(parent),
    ensures
        id == NodeId(old(instance)@.nodes.len() as usize),
        final(instance)@ == old(instance)@.with_element(parent, name@, value@),
        final(instance)@.wf(),
        final(instance)@.has(id),
        old(instance)@.upright() ==> final(instance)@.upright(),
{
    let ghost before = instance@;
    let id = instance.create_element(name, value);
    proof {
        before.lemma_grown_split(NodeKind::Element, name@, value@);
        instance@.lemma_split_can_hold(before.nodes.len() as int, parent, id);
        if before.upright() {
            before.lemma_grown_upright(NodeKind::Element, name@, value@);
            instance@.lemma_split_unlinked(before.nodes.len() as int);
            instance@.lemma_appended_upright(parent, id);
        }
    }
    instance.append_child(parent, id);
    id
}

/// Create a path that an instance does not have, one element at a time.
pub(crate) fn create_at(instance: &mut Instance, path: &str, value: &str) -> (r: Result<
    (),
    String,
>)
    requires
        old(instance)@.wf(),
    ensures
        match created_at(old(instance)@, path@, value@) {
            Ok(t) => r is Ok && final(instance)@ == t,
            Err(e) => r matches Err(m) && m@ == e && final(instance)@ == old(instance)@,
        },
        final(instance)@.wf(),
        old(instance)@.upright() ==> final(instance)@.upright(),
{
    let ghost before = instance@;
    let mut parts = parts_of(path);
    let ghost all = texts(parts@);
    if parts.len() == 0 {
        return Err(cat3("'", path, "' names nothing"));
    }
    if let Some(indexed) = indexed_part(&parts) {
        return Err(
            cat5(
                "'",
                path,
                "' points at ",
                indexed.as_str(),
                ", which does not exist — add the row first with add_row()",
            ),
        );
    }
    let ghost whole = parts@;
    let leaf = match parts.pop() {
        Some(leaf) => leaf,
        None => {
            return Err(cat3("'", path, "' names nothing"));
        },
    };
    assert(texts(parts@) == all.drop_last());
    let root = match instance.root() {
        None => {
            return Err("the instance has no root".to_string());
        },
        Some(root) => root,
    };
    let ghost above = texts(parts@);
    if parts.len() > 0 {
        assert(above[0] == parts@[0]@);
        if same(instance.node(root).name.as_str(), parts[0].as_str()) {
            let _ = parts.remove(0);
            assert(texts(parts@) == above.skip(1));
        }
    }
    let ghost below = texts(parts@);
    let ghost goal = grown_along(before, root, below, 0, leaf@, value@);
    let mut here = root;
    let n = parts.len();
    for k in 0..n
        invariant
            n == parts@.len(),
            below == texts(parts@),
            instance@.wf(),
            before.upright() ==> instance@.upright(),
            instance@.has(here),
            goal == grown_along(instance@, here, below, k as int, leaf@, value@),
    {
        let part = parts[k].as_str();
        assert(part@ == below[k as int]);
        here = match child_named(instance, here, part) {
            Some(child) => child,
            None => add_element(instance, here, part, ""),
        };
    }
    let _ = add_element(instance, here, leaf.as_str(), value);
    let ghost grown = instance@;
    instance.reindex();
    proof {
        if grown.upright() {
            grown.lemma_same_nodes_upright(instance@);
        }
    }
    Ok(())
}

fn slash_of(v: &Vec<char>) -> (r: Option<usize>)
    ensures
        crate::text::as_int(r) == last_slash(v@),
        r matches Some(at) ==> at < v@.len(),
{
    let at = start_of_run(v, v.len(), Class::Not('/'));
    if at > 0 {
        Some(at - 1)
    } else {
        None
    }
}

pub(crate) fn holder_of<E: Environment>(instance: &Instance, path: &str, env: &E) -> (r: Option<
    NodeId,
>)
    requires
        instance@.wf(),
    ensures
        r == holder(instance@, path@, env.model()),
        r matches Some(n) ==> instance@.has(n),
{
    let v = chars_of(path);
    let above = match slash_of(&v) {
        Some(at) => {
            let s = slice(&v, 0, at);
            assert(s@ == path@.take(at as int));
            s
        },
        None => "".to_string(),
    };
    proof {
        reveal_strlit("");
    }
    assert(above@ == path_above(path@));
    if above.as_str().is_empty() {
        instance.root()
    } else {
        find_node(instance, above.as_str(), env)
    }
}

pub(crate) fn rows<E: Environment>(instance: &Instance, path: &str, env: &E) -> (r: Vec<NodeId>)
    requires
        instance@.wf(),
    ensures
        r@ == rows_of(instance@, path@, env.model()),
        instance@.all_in(r@),
{
    let ghost t = instance@;
    let v = chars_of(path);
    let mut out: Vec<NodeId> = Vec::new();
    assert(out@ == Seq::<NodeId>::empty());
    let name = match slash_of(&v) {
        Some(at) => {
            let s = slice(&v, at + 1, v.len());
            assert(s@ == path@.skip(at + 1));
            s
        },
        None => {
            return out;
        },
    };
    let parent = match holder_of(instance, path, env) {
        Some(parent) => parent,
        None => {
            return out;
        },
    };
    let children = instance.children(parent);
    proof {
        t.lemma_children_in(parent);
    }
    let n = children.len();
    assert(children@.take(0) == Seq::<NodeId>::empty());
    for i in 0..n
        invariant
            t == instance@,
            n == children@.len(),
            t.all_in(children@),
            t.all_in(out@),
            out@ == named(t, children@.take(i as int), name@),
    {
        assert(t.has(children@[i as int]));
        assert(children@.take(i + 1).drop_last() == children@.take(i as int));
        if same(instance.node(children[i]).name.as_str(), name.as_str()) {
            out.push(children[i]);
        }
    }
    assert(children@.take(n as int) == children@);
    out
}

} // verus!
