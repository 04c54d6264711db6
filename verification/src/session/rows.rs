//! What holds of the rows of a repeat.

use crate::rules::checking::nodes_for;
use crate::rules::form::lemma_lookup_wf;
use crate::session::answers::{holder, last_slash, named, path_above, rows_of};
use crate::session::laws::{
    is_plain_path, lemma_depth, lemma_one_depth, lemma_plain_path, lemma_reached_same, names_in,
};
use crate::session::SessionModel;
use crate::table::lookup;
use crate::tree::places::reached;
use crate::tree::edit::{place_after, without};
use crate::tree::{NodeId, Tree};
use vstd::prelude::*;

verus! {

/// Whether the rows of a repeat are held by one node: the path above is the
/// root's, or one of names that leads to that node alone.
pub open spec fn one_holder(s: SessionModel, path: Seq<char>, parent: NodeId) -> bool {
    &&& s.instance.root is Some
    &&& last_slash(path) is Some
    &&& holder(s.instance, path, s.env()) == Some(parent)
    &&& path_above(path).len() > 0 ==> {
        &&& is_plain_path(path_above(path))
        &&& names_in(path_above(path)).len() > 0
        &&& names_in(path_above(path))[0] == s.instance.name(s.instance.root->0)
        &&& nodes_for(path_above(path), s.instance, s.env()) == seq![parent]
    }
}

/// The name that the rows of a repeat have.
pub open spec fn row_name(path: Seq<char>) -> Seq<char> {
    path.skip(last_slash(path)->0 + 1)
}

// ---------------------------------------------------------------------------
// Names in lists
// ---------------------------------------------------------------------------

proof fn lemma_named_joined(t: Tree, a: Seq<NodeId>, b: Seq<NodeId>, name: Seq<char>)
    ensures
        named(t, a + b, name) == named(t, a, name) + named(t, b, name),
    decreases b.len(),
{
    if b.len() == 0 {
        assert(a + b == a);
        assert(named(t, a, name) + Seq::<NodeId>::empty() == named(t, a, name));
    } else {
        lemma_named_joined(t, a, b.drop_last(), name);
        assert((a + b).drop_last() == a + b.drop_last());
        assert((a + b).last() == b.last());
        if t.name(b.last()) == name {
            assert(named(t, a, name) + named(t, b.drop_last(), name).push(b.last()) == (named(
                t,
                a,
                name,
            ) + named(t, b.drop_last(), name)).push(b.last()));
        }
    }
}

proof fn lemma_named_same(t: Tree, u: Tree, s: Seq<NodeId>, name: Seq<char>)
    requires
        forall|i: int| 0 <= i < s.len() ==> t.name(#[trigger] s[i]) == u.name(s[i]),
    ensures
        named(t, s, name) == named(u, s, name),
    decreases s.len(),
{
    if s.len() > 0 {
        let d = s.drop_last();
        assert forall|i: int| 0 <= i < d.len() implies t.name(#[trigger] d[i]) == u.name(d[i]) by {
            assert(d[i] == s[i]);
        }
        lemma_named_same(t, u, d, name);
        assert(s[s.len() - 1] == s.last());
    }
}

pub proof fn lemma_named_in(t: Tree, s: Seq<NodeId>, name: Seq<char>)
    ensures
        forall|i: int|
            0 <= i < named(t, s, name).len() ==> s.contains(#[trigger] named(t, s, name)[i])
                && t.name(named(t, s, name)[i]) == name,
        forall|k: int|
            0 <= k < s.len() && t.name(#[trigger] s[k]) == name ==> named(t, s, name).contains(
                s[k],
            ),
    decreases s.len(),
{
    if s.len() > 0 {
        let d = s.drop_last();
        lemma_named_in(t, d, name);
        let r = named(t, s, name);
        let q = named(t, d, name);
        assert forall|i: int| 0 <= i < r.len() implies s.contains(#[trigger] r[i]) && t.name(r[i])
            == name by {
            if i < q.len() {
                assert(r[i] == q[i]);
                let k = choose|k: int| 0 <= k < d.len() && d[k] == q[i];
                assert(s[k] == r[i]);
            } else {
                assert(s[s.len() - 1] == r[i]);
            }
        }
        assert forall|k: int| 0 <= k < s.len() && t.name(#[trigger] s[k]) == name implies r.contains(
        s[k]) by {
            if k < d.len() {
                assert(d[k] == s[k]);
                let i = choose|i: int| 0 <= i < q.len() && q[i] == s[k];
                assert(r[i] == s[k]);
            } else {
                assert(r[q.len() as int] == s[k]);
            }
        }
    }
}

/// Where the last node of a name stands in a list that has each node once,
/// nothing of that name stands after it.
proof fn lemma_after_last(t: Tree, s: Seq<NodeId>, name: Seq<char>)
    requires
        named(t, s, name).len() > 0,
        forall|i: int, j: int| 0 <= i < j < s.len() ==> (#[trigger] s[i]) != (#[trigger] s[j]),
    ensures
        ({
            let at = place_after(s, named(t, s, name).last());
            &&& 0 < at <= s.len()
            &&& named(t, s.take(at), name) == named(t, s, name)
            &&& named(t, s.skip(at), name) == Seq::<NodeId>::empty()
        }),
    decreases s.len(),
{
    let last = named(t, s, name).last();
    let d = s.drop_last();
    if t.name(s.last()) == name {
        assert(last == s.last());
        lemma_place_of_last(s);
        assert(s.take(s.len() as int) == s);
        assert(s.skip(s.len() as int) == Seq::<NodeId>::empty());
    } else {
        assert forall|i: int, j: int| 0 <= i < j < d.len() implies (#[trigger] d[i]) != (
        #[trigger] d[j]) by {
            assert(d[i] == s[i] && d[j] == s[j]);
        }
        lemma_after_last(t, d, name);
        let at = place_after(d, last);
        lemma_named_in(t, d, name);
        assert(d.contains(named(t, d, name)[named(t, d, name).len() - 1]));
        lemma_place_before(d, s.last(), last);
        assert(d.push(s.last()) == s);
        assert(s.take(at) == d.take(at));
        assert(s.skip(at) == d.skip(at).push(s.last()));
        assert(d.skip(at).push(s.last()).drop_last() == d.skip(at));
    }
}

proof fn lemma_place_of_last(s: Seq<NodeId>)
    requires
        s.len() > 0,
        forall|i: int, j: int| 0 <= i < j < s.len() ==> (#[trigger] s[i]) != (#[trigger] s[j]),
    ensures
        place_after(s, s.last()) == s.len(),
    decreases s.len(),
{
    if s.len() > 1 {
        let r = s.skip(1);
        assert(s[0] != s[s.len() - 1]);
        assert forall|i: int, j: int| 0 <= i < j < r.len() implies (#[trigger] r[i]) != (
        #[trigger] r[j]) by {
            assert(r[i] == s[i + 1] && r[j] == s[j + 1]);
        }
        lemma_place_of_last(r);
        assert(r.last() == s.last());
    }
}

proof fn lemma_place_before(s: Seq<NodeId>, more: NodeId, n: NodeId)
    requires
        s.contains(n),
    ensures
        place_after(s.push(more), n) == place_after(s, n),
        0 < place_after(s, n) <= s.len(),
    decreases s.len(),
{
    assert(s.push(more)[0] == s[0]);
    if s[0] != n {
        let k = choose|k: int| 0 <= k < s.len() && s[k] == n;
        assert(s.skip(1)[k - 1] == n);
        assert(s.push(more).skip(1) == s.skip(1).push(more));
        lemma_place_before(s.skip(1), more, n);
    }
}

// ---------------------------------------------------------------------------
// One row more
// ---------------------------------------------------------------------------

/// Whether a tree is another with new nodes, of which one is a child of a
/// node that was there.
spec fn has_new_child(t: Tree, u: Tree, parent: NodeId, row: NodeId) -> bool {
    &&& t.nodes.len() <= row.0 < u.nodes.len()
    &&& u.root == t.root
    &&& forall|j: int|
        0 <= j < t.nodes.len() ==> (#[trigger] u.nodes[j]).name == t.nodes[j].name
            && u.nodes[j].parent == t.nodes[j].parent
    &&& forall|p: NodeId, m: NodeId|
        t.has(p) && t.has(m) ==> (#[trigger] u.children(p).contains(m) <==> t.children(p).contains(
            m,
        ))
    &&& forall|p: NodeId, m: NodeId|
        t.has(p) && m.0 >= t.nodes.len() && #[trigger] u.children(p).contains(m) ==> p == parent
}

proof fn lemma_reached_with(
    t: Tree,
    u: Tree,
    parent: NodeId,
    row: NodeId,
    root: NodeId,
    names: Seq<Seq<char>>,
    d: int,
    j: int,
    m: NodeId,
)
    requires
        t.wf(),
        t.has(root),
        has_new_child(t, u, parent, row),
        reached(t, root, names, d, parent),
        0 <= d,
        0 <= j,
    ensures
        t.has(m) ==> (reached(u, root, names, j, m) <==> reached(t, root, names, j, m)),
        m.0 >= t.nodes.len() && reached(u, root, names, j, m) ==> j > d,
    decreases j,
{
    if j > 0 {
        if t.has(m) {
            assert(u.nodes[m.0 as int].name == t.nodes[m.0 as int].name);
            if let Some(p) = t.parent(m) {
                t.lemma_parent(m);
                lemma_reached_with(t, u, parent, row, root, names, d, j - 1, p);
                assert(u.children(p).contains(m) <==> t.children(p).contains(m));
            }
        } else if reached(u, root, names, j, m) {
            let p = u.parent(m)->0;
            lemma_reached_with(t, u, parent, row, root, names, d, j - 1, p);
            if t.has(p) {
                assert(u.children(p).contains(m));
                assert(p == parent);
                if d <= j - 1 {
                } else {
                    lemma_one_depth(t, root, names, j - 1, d, p);
                }
            }
        }
    }
}

/// The node that holds the rows goes on holding them.
proof fn lemma_holder_with(
    s: SessionModel,
    path: Seq<char>,
    parent: NodeId,
    u: Tree,
    row: NodeId,
)
    requires
        s.wf(),
        one_holder(s, path, parent),
        u.wf(),
        u.upright(),
        has_new_child(s.instance, u, parent, row),
    ensures
        holder(u, path, s.env()) == Some(parent),
{
    let t = s.instance;
    let env = s.env();
    let root = t.root->0;
    let above = path_above(path);
    if above.len() > 0 {
        let names = names_in(above).skip(1);
        let d = names.len() as int;
        assert(u.nodes[root.0 as int].name == t.nodes[root.0 as int].name);
        lemma_plain_path(t, above, root, env);
        lemma_plain_path(u, above, root, env);
        let r = nodes_for(above, t, env);
        let q = nodes_for(above, u, env);
        assert(r[0] == parent);
        assert(r.contains(parent));
        lemma_depth(t, root, names, d, parent);
        assert forall|m: NodeId| #[trigger] q.contains(m) <==> m == parent by {
            lemma_reached_with(t, u, parent, row, root, names, d, d, m);
            assert(q.contains(m) <==> reached(u, root, names, d, m));
            assert(r.contains(m) <==> reached(t, root, names, d, m));
            if r.contains(m) {
                let k = choose|k: int| 0 <= k < r.len() && r[k] == m;
            }
        }
        assert(q.contains(parent));
        assert(q.contains(q[0]));
    }
}

proof fn lemma_insert_contains(s: Seq<NodeId>, at: int, n: NodeId, m: NodeId)
    requires
        0 <= at <= s.len(),
    ensures
        s.insert(at, n).contains(m) <==> m == n || s.contains(m),
{
    let r = s.insert(at, n);
    if m == n {
        assert(r[at] == n);
    }
    if s.contains(m) {
        let k = choose|k: int| 0 <= k < s.len() && s[k] == m;
        if k < at {
            assert(r[k] == m);
        } else {
            assert(r[k + 1] == m);
        }
    }
    if r.contains(m) {
        let k = choose|k: int| 0 <= k < r.len() && r[k] == m;
        if k < at {
            assert(s[k] == m);
        } else if k > at {
            assert(s[k - 1] == m);
        }
    }
}

/// A tree with a copy put at a place among the children of a node.
proof fn lemma_hung_at(
    t: Tree,
    grown: Tree,
    u: Tree,
    parent: NodeId,
    row: NodeId,
    place: int,
)
    requires
        t.wf(),
        t.has(parent),
        grown.extends(t),
        grown.split_at(t.nodes.len() as int),
        row.0 == t.nodes.len(),
        grown.has(row),
        u.nodes.len() == grown.nodes.len(),
        u.root == grown.root,
        0 <= place <= t.children(parent).len(),
        u.children(parent) == t.children(parent).insert(place, row),
        forall|j: int|
            0 <= j < grown.nodes.len() ==> (#[trigger] u.nodes[j]).name == grown.nodes[j].name && (j
                != parent.0 ==> u.nodes[j].children == grown.nodes[j].children) && (j != row.0
                ==> u.nodes[j].parent == grown.nodes[j].parent),
    ensures
        has_new_child(t, u, parent, row),
{
    assert forall|j: int| 0 <= j < t.nodes.len() implies (#[trigger] u.nodes[j]).name
        == t.nodes[j].name && u.nodes[j].parent == t.nodes[j].parent by {
        assert(grown.nodes[j] == t.nodes[j]);
    }
    assert forall|p: NodeId, m: NodeId| t.has(p) && t.has(m) implies (
    #[trigger] u.children(p).contains(m) <==> t.children(p).contains(m)) by {
        assert(grown.nodes[p.0 as int] == t.nodes[p.0 as int]);
        if p == parent {
            lemma_insert_contains(t.children(parent), place, row, m);
        } else {
            assert(u.nodes[p.0 as int].children == grown.nodes[p.0 as int].children);
        }
    }
    assert forall|p: NodeId, m: NodeId|
        t.has(p) && m.0 >= t.nodes.len() && #[trigger] u.children(p).contains(m) implies p
        == parent by {
        assert(grown.nodes[p.0 as int] == t.nodes[p.0 as int]);
        if p != parent {
            assert(u.nodes[p.0 as int].children == grown.nodes[p.0 as int].children);
            let k = choose|k: int| 0 <= k < u.children(p).len() && u.children(p)[k] == m;
            assert(grown.nodes[p.0 as int].children[k] == m);
        }
    }
}

/// A row that is added follows those that were there, which stay as they
/// were, where one node holds the rows and the template has their name.
pub proof fn law_added_row_follows_the_rest(
    s: SessionModel,
    path: Seq<char>,
    parent: NodeId,
    template: Tree,
    root: NodeId,
)
    requires
        s.wf(),
        one_holder(s, path, parent),
        lookup(s.templates, path) == Some(template),
        template.root == Some(root),
        template.name(root) == row_name(path),
        s.instance.nodes.len() + template.size(root) <= usize::MAX,
    ensures
        s.with_row(path) matches Ok(t) && rows_of(t, path, s.env()) == rows_of(
            s.instance,
            path,
            s.env(),
        ).push(NodeId(s.instance.nodes.len() as usize)),
{
    let t = s.instance;
    let env = s.env();
    let name = row_name(path);
    let rows = rows_of(t, path, env);
    let row = NodeId(t.nodes.len() as usize);
    let grown = t.adopted(template, root);
    let all = t.children(parent);
    lemma_lookup_wf(s.templates, path);
    t.lemma_adopted(t, template, root);
    t.lemma_adopted_linked(template, root);
    t.lemma_adopted_named(template, root);
    lemma_holder_in(s, path, parent);
    assert(rows == named(t, all, name));
    assert forall|i: int, j: int| 0 <= i < j < all.len() implies (#[trigger] all[i]) != (
    #[trigger] all[j]) by {
        assert(t.nodes[parent.0 as int].children[i] != t.nodes[parent.0 as int].children[j]);
    }
    assert(grown.nodes[parent.0 as int] == t.nodes[parent.0 as int]);
    let place = if rows.len() > 0 {
        place_after(all, rows.last())
    } else {
        all.len() as int
    };
    let hung = if rows.len() > 0 {
        grown.inserted_after(rows.last(), row)
    } else {
        grown.appended(parent, row)
    };
    lemma_named_in(t, all, name);
    if rows.len() > 0 {
        lemma_after_last(t, all, name);
        let last = rows[rows.len() - 1];
        assert(all.contains(last));
        let k = choose|k: int| 0 <= k < all.len() && all[k] == last;
        assert(t.nodes[parent.0 as int].children[k] == last);
        assert(t.parent(last) == Some(parent));
        assert(grown.nodes[last.0 as int] == t.nodes[last.0 as int]);
        assert(hung.children(parent) == all.insert(place, row));
        grown.lemma_split_can_hold(t.nodes.len() as int, parent, row);
        grown.lemma_inserted_wf(last, row);
        grown.lemma_split_unlinked(t.nodes.len() as int);
        grown.lemma_inserted_upright(last, row);
    } else {
        assert(all.take(place) == all);
        assert(all.skip(place) == Seq::<NodeId>::empty());
        assert(hung.children(parent) == all.push(row));
        assert(all.push(row) == all.insert(place, row));
        grown.lemma_split_can_hold(t.nodes.len() as int, parent, row);
        grown.lemma_appended_wf(parent, row);
        grown.lemma_split_unlinked(t.nodes.len() as int);
        grown.lemma_appended_upright(parent, row);
    }
    let u = hung.reindexed();
    hung.lemma_rerooted_wf(hung.root, u.order);
    hung.lemma_same_nodes_upright(u);
    assert(u == Tree { root: hung.root, order: u.order, ..hung });
    lemma_hung_at(t, grown, u, parent, row, place);
    lemma_holder_with(s, path, parent, u, row);
    let now = u.children(parent);
    assert(now == all.take(place) + (seq![row] + all.skip(place)));
    lemma_named_joined(u, all.take(place), seq![row] + all.skip(place), name);
    lemma_named_joined(u, seq![row], all.skip(place), name);
    assert(seq![row].drop_last() == Seq::<NodeId>::empty());
    assert(u.name(row) == name);
    assert(named(u, seq![row], name) == seq![row]) by {
        assert(named(u, seq![row].drop_last(), name) == Seq::<NodeId>::empty());
        assert(Seq::<NodeId>::empty().push(row) == seq![row]);
    }
    t.lemma_children_in(parent);
    assert forall|i: int| 0 <= i < all.len() implies t.name(#[trigger] all[i]) == u.name(
        all[i],
    ) by {
        assert(t.has(all[i]));
        assert(u.nodes[all[i].0 as int].name == t.nodes[all[i].0 as int].name);
    }
    lemma_named_same(t, u, all.take(place), name);
    lemma_named_same(t, u, all.skip(place), name);
    assert(rows + (seq![row] + Seq::<NodeId>::empty()) == rows.push(row));
}

pub proof fn lemma_holder_in(s: SessionModel, path: Seq<char>, parent: NodeId)
    requires
        s.wf(),
        one_holder(s, path, parent),
    ensures
        s.instance.has(parent),
{
    let above = path_above(path);
    let root = s.instance.root->0;
    if above.len() > 0 {
        let names = names_in(above).skip(1);
        lemma_plain_path(s.instance, above, root, s.env());
        assert(nodes_for(above, s.instance, s.env())[0] == parent);
        assert(nodes_for(above, s.instance, s.env()).contains(parent));
        lemma_depth(s.instance, root, names, names.len() as int, parent);
    }
}

// ---------------------------------------------------------------------------
// One row less
// ---------------------------------------------------------------------------

proof fn lemma_reached_without(
    t: Tree,
    gone: NodeId,
    root: NodeId,
    names: Seq<Seq<char>>,
    j: int,
    m: NodeId,
)
    requires
        t.wf(),
        t.upright(),
        t.has(root),
        t.has(gone),
        t.parent(gone) is Some,
        0 <= j,
    ensures
        reached(t.detached(gone), root, names, j, m) ==> reached(t, root, names, j, m),
        reached(t, root, names, j, m) && t.height(m) > t.height(gone) ==> reached(
            t.detached(gone),
            root,
            names,
            j,
            m,
        ),
    decreases j,
{
    let u = t.detached(gone);
    let q = t.parent(gone)->0;
    t.lemma_parent(gone);
    if j > 0 {
        if u.has(m) {
            assert(u.nodes[m.0 as int].name == t.nodes[m.0 as int].name);
            if let Some(p) = t.parent(m) {
                t.lemma_parent(m);
                lemma_reached_without(t, gone, root, names, j - 1, p);
                lemma_without_contains(t.children(q), gone, m);
                if p != q {
                    assert(u.nodes[p.0 as int].children == t.nodes[p.0 as int].children);
                }
            }
        }
    }
}

proof fn lemma_without_contains(s: Seq<NodeId>, n: NodeId, m: NodeId)
    ensures
        without(s, n).contains(m) <==> s.contains(m) && m != n,
    decreases s.len(),
{
    let r = without(s, n);
    if s.len() > 0 {
        let d = s.drop_last();
        let q = without(d, n);
        lemma_without_contains(d, n, m);
        if s.contains(m) {
            let k = choose|k: int| 0 <= k < s.len() && s[k] == m;
            if k < d.len() {
                assert(d[k] == m);
            }
        }
        if d.contains(m) {
            let k = choose|k: int| 0 <= k < d.len() && d[k] == m;
            assert(s[k] == m);
        }
        if q.contains(m) {
            let k = choose|k: int| 0 <= k < q.len() && q[k] == m;
            assert(r[k] == m);
        }
        assert(s[s.len() - 1] == s.last());
        if s.last() != n {
            assert(r[q.len() as int] == s.last());
            if r.contains(m) {
                let k = choose|k: int| 0 <= k < r.len() && r[k] == m;
                if k < q.len() {
                    assert(q[k] == m);
                }
            }
        }
    }
}

proof fn lemma_named_without(t: Tree, s: Seq<NodeId>, n: NodeId, name: Seq<char>)
    ensures
        named(t, without(s, n), name) == without(named(t, s, name), n),
    decreases s.len(),
{
    if s.len() > 0 {
        let d = s.drop_last();
        lemma_named_without(t, d, n, name);
        let r = named(t, d, name);
        if s.last() != n {
            assert(without(s, n).drop_last() == without(d, n));
        }
        if t.name(s.last()) == name {
            assert(named(t, s, name).drop_last() == r);
        }
    }
}

/// A row that is removed is gone, and the others stay as they were, where
/// one node holds the rows.
pub proof fn law_removed_row_is_gone(
    s: SessionModel,
    path: Seq<char>,
    parent: NodeId,
    position: usize,
)
    requires
        s.wf(),
        one_holder(s, path, parent),
        1 <= position <= rows_of(s.instance, path, s.env()).len(),
    ensures
        s.without_row(path, position) matches Ok(t) && rows_of(t, path, s.env()) == without(
            rows_of(s.instance, path, s.env()),
            rows_of(s.instance, path, s.env())[position - 1],
        ),
{
    let t = s.instance;
    let env = s.env();
    let root = t.root->0;
    let name = row_name(path);
    let rows = rows_of(t, path, env);
    let gone = rows[position - 1];
    let all = t.children(parent);
    lemma_holder_in(s, path, parent);
    assert(rows == named(t, all, name));
    lemma_named_in(t, all, name);
    assert(all.contains(gone));
    let k = choose|k: int| 0 <= k < all.len() && all[k] == gone;
    assert(t.nodes[parent.0 as int].children[k] == gone);
    assert(t.has(gone) && t.parent(gone) == Some(parent));
    t.lemma_parent(gone);
    let v = t.detached(gone);
    t.lemma_detached_wf(gone);
    t.lemma_detached_upright(gone);
    let u = v.reindexed();
    v.lemma_rerooted_wf(v.root, u.order);
    v.lemma_same_nodes_upright(u);
    assert(u == Tree { root: v.root, order: u.order, ..v });
    let above = path_above(path);
    assert(holder(u, path, env) == Some(parent)) by {
        if above.len() > 0 {
            let names = names_in(above).skip(1);
            let d = names.len() as int;
            assert(u.nodes[root.0 as int].name == t.nodes[root.0 as int].name);
            lemma_plain_path(t, above, root, env);
            lemma_plain_path(u, above, root, env);
            let r = nodes_for(above, t, env);
            let q = nodes_for(above, u, env);
            assert(r[0] == parent);
            assert(r.contains(parent));
            assert forall|m: NodeId| #[trigger] q.contains(m) <==> m == parent by {
                lemma_reached_without(t, gone, root, names, d, m);
                lemma_reached_same(v, u, root, names, d, m);
                assert(q.contains(m) <==> reached(u, root, names, d, m));
                assert(r.contains(m) <==> reached(t, root, names, d, m));
                if r.contains(m) {
                    let k = choose|k: int| 0 <= k < r.len() && r[k] == m;
                }
            }
            assert(q.contains(parent));
            assert(q.contains(q[0]));
        }
    }
    assert(u.children(parent) == without(all, gone));
    let left = without(all, gone);
    assert forall|i: int| 0 <= i < left.len() implies t.name(#[trigger] left[i]) == u.name(
        left[i],
    ) by {
        lemma_without_contains(all, gone, left[i]);
        assert(left.contains(left[i]));
        let c = choose|c: int| 0 <= c < all.len() && all[c] == left[i];
        assert(t.nodes[parent.0 as int].children[c] == left[i]);
        assert(t.has(left[i]));
    }
    lemma_named_same(t, u, left, name);
    lemma_named_without(t, all, gone, name);
}

// ---------------------------------------------------------------------------
// Rows leave the rest in its place
// ---------------------------------------------------------------------------

/// What holds the rows of a repeat is an element.
proof fn lemma_holder_is_none(s: SessionModel, path: Seq<char>, parent: NodeId)
    requires
        s.wf(),
        one_holder(s, path, parent),
        s.instance.hangs_together(s.instance.root->0),
    ensures
        s.instance.has(parent),
        !s.instance.is_attribute(parent),
{
    let t = s.instance;
    let above = path_above(path);
    let root = t.root->0;
    lemma_holder_in(s, path, parent);
    if above.len() > 0 {
        let names = names_in(above).skip(1);
        lemma_plain_path(t, above, root, s.env());
        assert(nodes_for(above, t, s.env())[0] == parent);
        assert(nodes_for(above, t, s.env()).contains(parent));
        assert(reached(t, root, names, names.len() as int, parent));
        if names.len() > 0 {
            t.lemma_child_is_none(t.parent(parent)->0, parent);
        } else {
            t.lemma_root_is_none(root);
        }
    } else {
        t.lemma_root_is_none(root);
    }
}

/// A row more leaves answers that hang together hanging together.
pub proof fn law_added_row_leaves_answers_together(
    s: SessionModel,
    path: Seq<char>,
    parent: NodeId,
    template: Tree,
    top: NodeId,
    root: NodeId,
)
    requires
        s.wf(),
        s.instance.hangs_together(root),
        one_holder(s, path, parent),
        lookup(s.templates, path) == Some(template),
        template.root == Some(top),
        s.instance.nodes.len() + template.size(top) <= usize::MAX,
    ensures
        s.with_row(path) matches Ok(t) && t.hangs_together(root),
{
    let t = s.instance;
    let rows = rows_of(t, path, s.env());
    let row = NodeId(t.nodes.len() as usize);
    let grown = t.adopted(template, top);
    let all = t.children(parent);
    let name = row_name(path);
    lemma_lookup_wf(s.templates, path);
    t.lemma_adopted(t, template, top);
    t.lemma_adopted_linked(template, top);
    t.lemma_adopted_apart(template, top);
    lemma_holder_is_none(s, path, parent);
    assert(rows == named(t, all, name));
    assert(grown.nodes[parent.0 as int] == t.nodes[parent.0 as int]);
    assert(grown.nodes[root.0 as int] == t.nodes[root.0 as int]);
    let hung = if rows.len() > 0 {
        grown.inserted_after(rows.last(), row)
    } else {
        grown.appended(parent, row)
    };
    lemma_named_in(t, all, name);
    grown.lemma_split_can_hold(t.nodes.len() as int, parent, row);
    grown.lemma_split_unlinked(t.nodes.len() as int);
    if rows.len() > 0 {
        let last = rows[rows.len() - 1];
        assert(rows.contains(last));
        assert(all.contains(last));
        let k = choose|k: int| 0 <= k < all.len() && all[k] == last;
        assert(t.nodes[parent.0 as int].children[k] == last);
        assert(t.parent(last) == Some(parent));
        assert(grown.nodes[last.0 as int] == t.nodes[last.0 as int]);
        grown.lemma_inserted_wf(last, row);
        grown.lemma_inserted_upright(last, row);
        grown.lemma_inserted_apart(last, row);
    } else {
        assert(!grown.is_attribute(parent)) by {
            t.lemma_stays_none(grown, parent);
        }
        grown.lemma_appended_wf(parent, row);
        grown.lemma_appended_upright(parent, row);
        grown.lemma_appended_apart(parent, row);
    }
    assert(hung.parent(root) is None);
    hung.lemma_reindexed_together(root);
}

/// A row less leaves answers that hang together hanging together.
pub proof fn law_removed_row_leaves_answers_together(
    s: SessionModel,
    path: Seq<char>,
    parent: NodeId,
    position: usize,
    root: NodeId,
)
    requires
        s.wf(),
        s.instance.hangs_together(root),
        one_holder(s, path, parent),
        1 <= position <= rows_of(s.instance, path, s.env()).len(),
    ensures
        s.without_row(path, position) matches Ok(t) && t.hangs_together(root),
{
    let t = s.instance;
    let name = row_name(path);
    let rows = rows_of(t, path, s.env());
    let gone = rows[position - 1];
    let all = t.children(parent);
    lemma_holder_in(s, path, parent);
    assert(rows == named(t, all, name));
    lemma_named_in(t, all, name);
    assert(all.contains(gone));
    let k = choose|k: int| 0 <= k < all.len() && all[k] == gone;
    assert(t.nodes[parent.0 as int].children[k] == gone);
    assert(t.has(gone) && t.parent(gone) == Some(parent));
    t.lemma_parent(gone);
    let v = t.detached(gone);
    t.lemma_detached_wf(gone);
    t.lemma_detached_upright(gone);
    t.lemma_detached_apart(parent, gone);
    assert(v.parent(root) is None);
    v.lemma_reindexed_together(root);
}

} // verus!
