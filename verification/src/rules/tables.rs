//! What the lookup tables of a form are.

use crate::eval::axes::lemma_elements;
use crate::rules::form::{attribute_of, document, tables_from, xform_tables};
use crate::table::{
    in_key_order, law_keys_stay_in_order, law_lookup_after_entry, lookup, with_entry,
};
use crate::tree::xml::form_tree;
use crate::tree::{NodeId, Tree};
use vstd::prelude::*;

verus! {

/// Whether an element of a form is a lookup table of that name.
pub open spec fn is_lookup_table(t: Tree, n: NodeId, id: Seq<char>) -> bool {
    &&& t.is_element(n)
    &&& t.name(n) == "instance"@
    &&& attribute_of(t, n, "id"@) == Some(id)
}

/// Whether a table is what one of some elements makes of it.
spec fn is_made_of(t: Tree, s: Seq<NodeId>, i: int, id: Seq<char>, u: Tree) -> bool {
    exists|j: int|
        i <= j < s.len() && #[trigger] is_lookup_table(t, s[j], id) && u == t.subtree(s[j])
}

proof fn lemma_tables_from(
    t: Tree,
    s: Seq<NodeId>,
    i: int,
    found: Seq<(Seq<char>, Tree)>,
    id: Seq<char>,
)
    requires
        0 <= i,
        in_key_order(found),
        forall|j: int| 0 <= j < s.len() ==> t.is_element(#[trigger] s[j]),
    ensures
        match lookup(tables_from(t, s, i, found), id) {
            Some(u) => is_made_of(t, s, i, id, u) || lookup(found, id) == Some(u),
            None => lookup(found, id) is None && forall|j: int|
                i <= j < s.len() ==> !is_lookup_table(t, #[trigger] s[j], id),
        },
    decreases s.len() - i,
{
    if i < s.len() {
        let taken = t.name(s[i]) == "instance"@ && attribute_of(t, s[i], "id"@) is Some;
        let key = attribute_of(t, s[i], "id"@)->0;
        let next = if taken {
            with_entry(found, key, t.subtree(s[i]))
        } else {
            found
        };
        assert(t.is_element(s[i]));
        if taken {
            law_keys_stay_in_order(found, key, t.subtree(s[i]));
            law_lookup_after_entry(found, key, t.subtree(s[i]), id);
        }
        lemma_tables_from(t, s, i + 1, next, id);
        if let Some(u) = lookup(tables_from(t, s, i, found), id) {
            if is_made_of(t, s, i + 1, id, u) {
                let j = choose|j: int|
                    i + 1 <= j < s.len() && #[trigger] is_lookup_table(t, s[j], id) && u
                        == t.subtree(s[j]);
                assert(is_lookup_table(t, s[j], id));
            } else if taken && id == key {
                assert(is_lookup_table(t, s[i], id));
            }
        }
    }
}

/// The lookup tables of a form are its `<instance>` elements that carry an
/// id, each under its id and as a copy of the element: there is a table
/// under every such id, and under no other.
pub proof fn law_tables_are_named_elements(xml: Seq<char>, t: Tree, id: Seq<char>)
    requires
        form_tree(xml) == Ok::<Tree, Seq<char>>(t),
        t.as_read(),
    ensures
        xform_tables(xml) is Ok,
        lookup(xform_tables(xml)->Ok_0, id) is Some <==> exists|n: NodeId| #[trigger]
            is_lookup_table(t, n, id),
        lookup(xform_tables(xml)->Ok_0, id) matches Some(u) ==> exists|n: NodeId| #[trigger]
            is_lookup_table(t, n, id) && u == t.subtree(n) && u.is_copy(NodeId(0), t, n),
{
    let root = NodeId(0);
    let s = document(t, root);
    let none = Seq::<(Seq<char>, Tree)>::empty();
    assert forall|j: int| 0 <= j < s.len() implies t.is_element(#[trigger] s[j]) by {
        assert(s.contains(s[j]));
        lemma_elements(t, s[j]);
    }
    lemma_tables_from(t, s, 0, none, id);
    let tables = xform_tables(xml)->Ok_0;
    assert(lookup(none, id) is None);
    if let Some(u) = lookup(tables, id) {
        let j = choose|j: int|
            0 <= j < s.len() && #[trigger] is_lookup_table(t, s[j], id) && u == t.subtree(s[j]);
        t.lemma_size_fits(s[j]);
        t.law_subtree_is_a_copy(s[j]);
        assert(is_lookup_table(t, s[j], id));
    }
    if exists|n: NodeId| #[trigger] is_lookup_table(t, n, id) {
        let n = choose|n: NodeId| #[trigger] is_lookup_table(t, n, id);
        lemma_elements(t, n);
        let j = choose|j: int| 0 <= j < s.len() && s[j] == n;
        assert(is_lookup_table(t, s[j], id));
    }
}

} // verus!
