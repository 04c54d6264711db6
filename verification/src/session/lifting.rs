//! What a form's templates are, and where they are kept.

use crate::session::templates::{
    blank_of, first_instance, markers, markers_from, templates_from, unpositioned,
};
use crate::text::{in_class, lemma_span_back, span_back, Class};
use crate::tree::xml::form_tree;
use crate::tree::{NodeId, Tree};
use vstd::prelude::*;

verus! {

/// Whether an element is marked as a template.
pub open spec fn is_marked(t: Tree, n: NodeId) -> bool {
    exists|i: int|
        0 <= i < t.attributes(n).len() && t.name(#[trigger] t.attributes(n)[i]) == "template"@
}

proof fn lemma_markers(t: Tree, s: Seq<NodeId>, i: int)
    requires
        0 <= i <= s.len(),
    ensures
        markers_from(t, s, i).len() > 0 <==> exists|k: int|
            i <= k < s.len() && t.name(#[trigger] s[k]) == "template"@,
    decreases s.len() - i,
{
    if i < s.len() {
        lemma_markers(t, s, i + 1);
        if t.name(s[i]) == "template"@ {
            assert(markers_from(t, s, i).len() > 0);
        }
    }
}

/// The templates among some elements are those that are marked as such.
pub proof fn law_marked_elements_are_templates(t: Tree, s: Seq<NodeId>, i: int, n: NodeId)
    requires
        0 <= i <= s.len(),
    ensures
        templates_from(t, s, i).contains(n) <==> s.skip(i).contains(n) && is_marked(t, n),
    decreases s.len() - i,
{
    if i < s.len() {
        law_marked_elements_are_templates(t, s, i + 1, n);
        lemma_markers(t, t.attributes(s[i]), 0);
        assert(markers(t, s[i]).len() > 0 <==> is_marked(t, s[i]));
        assert(s.skip(i) =~= seq![s[i]] + s.skip(i + 1));
        crate::parser::parts::lemma_in_sum(seq![s[i]], s.skip(i + 1), n);
        crate::parser::parts::lemma_in_sum(seq![s[i]], templates_from(t, s, i + 1), n);
        assert(seq![s[i]][0] == s[i]);
    }
}

/// A template is kept by the path of its rows, without a place: a place in
/// brackets at the end is left out, and a path without one stays.
pub proof fn law_templates_have_no_place(path: Seq<char>, place: Seq<char>)
    requires
        !place.contains('['),
    ensures
        unpositioned(path + seq!['['] + place + seq![']']) == path,
        path.len() == 0 || path.last() != ']' ==> unpositioned(path) == path,
{
    let long = path + seq!['['] + place + seq![']'];
    let n = long.len() as int;
    let k = path.len() as int;
    lemma_span_back(long, n, Class::Not('['));
    let at = span_back(long, n, Class::Not('['));
    assert(long[k] == '[');
    assert(!in_class(Class::Not('['), long[k]));
    assert(at > k);
    if at > k + 1 {
        let c = long[at - 1];
        if at - 1 == n - 1 {
            assert(c == ']');
        } else {
            assert(c == place[at - 1 - k - 1]);
            assert(place.contains(c));
        }
        assert(in_class(Class::Not('['), c));
    }
    assert(at == k + 1);
    assert(long.last() == ']');
    assert(long.take(k) =~= path);
}

/// The blank answers of a form are a copy of what its first instance holds
/// first.
pub proof fn law_blank_answers_are_the_first_instance(
    xform: Seq<char>,
    t: Tree,
    root: NodeId,
    k: int,
)
    requires
        form_tree(xform) == Ok::<Tree, Seq<char>>(t),
        t.root == Some(root),
        0 <= k < t.descendants(root).len(),
        t.name(t.descendants(root)[k]) == "instance"@,
        forall|j: int| 0 <= j < k ==> t.name(#[trigger] t.descendants(root)[j]) != "instance"@,
        t.children(t.descendants(root)[k]).len() > 0,
    ensures
        blank_of(xform) == Ok::<Tree, Seq<char>>(
            t.subtree(t.children(t.descendants(root)[k])[0]),
        ),
{
    lemma_first_instance(t, t.descendants(root), 0, k);
}

proof fn lemma_first_instance(t: Tree, s: Seq<NodeId>, i: int, k: int)
    requires
        0 <= i <= k < s.len(),
        t.name(s[k]) == "instance"@,
        forall|j: int| 0 <= j < k ==> t.name(#[trigger] s[j]) != "instance"@,
    ensures
        first_instance(t, s, i) == Some(s[k]),
    decreases k - i,
{
    if i < k {
        assert(t.name(s[i]) != "instance"@);
        lemma_first_instance(t, s, i + 1, k);
    }
}

} // verus!
