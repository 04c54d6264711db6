//! Instances as XML.

use crate::session::round_trip::{
    is_clean, is_writable, law_element_reads_back, law_escaped_reads_back,
    law_escaped_text_is_clean, law_written_reads_back,
};
use crate::text::chars_of;
use crate::tree::xml::{unescape, xml_tree};
use crate::tree::{Instance, NodeId, Tree};
use vstd::prelude::*;

verus! {

/// A character as XML writes it in text and in attribute values.
pub open spec fn escaped_char(c: char) -> Seq<char> {
    if c == '&' {
        "&amp;"@
    } else if c == '<' {
        "&lt;"@
    } else if c == '>' {
        "&gt;"@
    } else if c == '"' {
        "&quot;"@
    } else {
        seq![c]
    }
}

pub open spec fn escaped(s: Seq<char>) -> Seq<char>
    decreases s.len(),
{
    if s.len() == 0 {
        Seq::empty()
    } else {
        escaped_char(s[0]) + escaped(s.skip(1))
    }
}

/// The attributes of an element, from the one at `i` on.
pub open spec fn attributes_text(t: Tree, s: Seq<NodeId>, i: int) -> Seq<char>
    decreases s.len() - i,
{
    if i < 0 || i >= s.len() {
        Seq::empty()
    } else {
        " "@ + t.name(s[i]) + "=\""@ + escaped(t.value(s[i])) + "\""@ + attributes_text(t, s, i + 1)
    }
}

/// An element and what is below it.
pub open spec fn element_text(t: Tree, n: NodeId) -> Seq<char>
    decreases t.height(n), t.children(n).len() + 1,
    when t.wf() && t.has(n)
{
    let start = "<"@ + t.name(n) + attributes_text(t, t.attributes(n), 0);
    let end = "</"@ + t.name(n) + ">"@;
    if t.children(n).len() > 0 {
        start + ">"@ + children_text(t, n, 0) + end
    } else if t.value(n).len() == 0 {
        start + "/>"@
    } else {
        start + ">"@ + escaped(t.value(n)) + end
    }
}

/// The children of an element, from the one at `i` on.
pub open spec fn children_text(t: Tree, n: NodeId, i: int) -> Seq<char>
    decreases t.height(n), t.children(n).len() - i,
    when t.wf() && t.has(n) && 0 <= i
{
    if i >= t.children(n).len() {
        Seq::empty()
    } else {
        element_text(t, t.children(n)[i]) + children_text(t, n, i + 1)
    }
}

/// A document as it is sent.
pub open spec fn document_text(t: Tree) -> Seq<char> {
    "<?xml version='1.0' ?>"@ + match t.root {
        Some(root) => element_text(t, root),
        None => Seq::empty(),
    }
}

/// Appends a text as XML writes it. What is appended reads back as the text;
/// it holds no bracket and no quote, and every ampersand in it begins an
/// entity.
pub(crate) fn escape_into(text: &str, out: &mut String)
    ensures
        final(out)@ == old(out)@ + escaped(text@),
        unescape(final(out)@.skip(old(out)@.len() as int)) == text@,
        is_clean(final(out)@.skip(old(out)@.len() as int)),
{
    proof {
        law_escaped_reads_back(text@);
        law_escaped_text_is_clean(text@);
        assert((out@ + escaped(text@)).skip(out@.len() as int) == escaped(text@));
    }
    let v = chars_of(text);
    let ghost all = out@ + escaped(v@);
    let n = v.len();
    assert(v@.skip(0) == v@);
    for i in 0..n
        invariant
            n == v@.len(),
            all == out@ + escaped(v@.skip(i as int)),
    {
        let ghost was = out@;
        let c = v[i];
        match c {
            '&' => out.append("&amp;"),
            '<' => out.append("&lt;"),
            '>' => out.append("&gt;"),
            '"' => out.append("&quot;"),
            _ => out.push(c),
        }
        assert(v@.skip(i as int)[0] == c);
        assert(v@.skip(i as int).skip(1) == v@.skip(i + 1));
        assert(out@ == was + escaped_char(c));
        assert(was + (escaped_char(c) + escaped(v@.skip(i + 1))) == out@ + escaped(v@.skip(i + 1)));
    }
    assert(v@.skip(n as int) == Seq::<char>::empty());
    assert(out@ + Seq::<char>::empty() == out@);
}

fn write_attributes(instance: &Instance, node: NodeId, out: &mut String)
    requires
        instance@.wf(),
        instance@.has(node),
    ensures
        final(out)@ == old(out)@ + attributes_text(instance@, instance@.attributes(node), 0),
{
    let ghost t = instance@;
    let ids = instance.attributes(node);
    let ghost all = out@ + attributes_text(t, ids@, 0);
    let n = ids.len();
    for i in 0..n
        invariant
            t == instance@,
            n == ids@.len(),
            t.all_in(ids@),
            all == out@ + attributes_text(t, ids@, i as int),
    {
        let ghost was = out@;
        assert(t.has(ids@[i as int]));
        let a = instance.node(ids[i]);
        out.append(" ");
        out.append(a.name.as_str());
        out.append("=\"");
        escape_into(a.value.as_str(), out);
        out.append("\"");
        assert(was + attributes_text(t, ids@, i as int) == out@ + attributes_text(t, ids@, i + 1));
    }
    assert(out@ + Seq::<char>::empty() == out@);
}

fn write_children(instance: &Instance, node: NodeId, out: &mut String)
    requires
        instance@.wf(),
        instance@.has(node),
    ensures
        final(out)@ == old(out)@ + children_text(instance@, node, 0),
    decreases instance@.height(node), 0nat,
{
    let ghost t = instance@;
    let children = instance.children(node);
    let ghost all = out@ + children_text(t, node, 0);
    proof {
        t.lemma_children_in(node);
        t.lemma_ranking();
    }
    let n = children.len();
    for i in 0..n
        invariant
            t == instance@,
            t.wf(),
            t.has(node),
            t.ranked(t.ranking()),
            n == children@.len(),
            children@ == t.children(node),
            t.all_in(children@),
            all == out@ + children_text(t, node, i as int),
    {
        let ghost was = out@;
        assert(t.has(children@[i as int]));
        assert(t.nodes[node.0 as int].children[i as int] == children@[i as int]);
        write_element(instance, children[i], out);
        assert(was + (element_text(t, children@[i as int]) + children_text(t, node, i + 1)) == out@
            + children_text(t, node, i + 1));
    }
    assert(out@ + Seq::<char>::empty() == out@);
}

proof fn lemma_element_appended(t: Tree, n: NodeId, before: Seq<char>)
    requires
        t.wf(),
        t.has(n),
    ensures
        is_writable(t, n) && t.size(n) <= usize::MAX ==> xml_tree(
            (before + element_text(t, n)).skip(before.len() as int),
        ) == Ok::<Tree, Seq<char>>(t.subtree(n)),
{
    if is_writable(t, n) && t.size(n) <= usize::MAX {
        law_element_reads_back(t, n);
        assert((before + element_text(t, n)).skip(before.len() as int) == element_text(t, n));
    }
}

/// Appends an element as XML. What is appended of one that can be written
/// reads back as a copy of it.
pub(crate) fn write_element(instance: &Instance, node: NodeId, out: &mut String)
    requires
        instance@.wf(),
        instance@.has(node),
    ensures
        final(out)@ == old(out)@ + element_text(instance@, node),
        is_writable(instance@, node) && instance@.size(node) <= usize::MAX ==> xml_tree(
            final(out)@.skip(old(out)@.len() as int),
        ) == Ok::<Tree, Seq<char>>(instance@.subtree(node)),
    decreases instance@.height(node), 1nat,
{
    let ghost t = instance@;
    let ghost before = out@;
    let name = instance.node(node).name.as_str();
    out.append("<");
    out.append(name);
    write_attributes(instance, node, out);
    let ghost start = "<"@ + t.name(node) + attributes_text(t, t.attributes(node), 0);
    assert(out@ == before + start);
    if instance.children(node).len() == 0 {
        let value = instance.node(node).value.as_str();
        if value.is_empty() {
            out.append("/>");
            assert(out@ == before + (start + "/>"@));
            proof {
                lemma_element_appended(t, node, before);
            }
            return;
        }
        out.append(">");
        escape_into(value, out);
    } else {
        out.append(">");
        write_children(instance, node, out);
    }
    out.append("</");
    out.append(name);
    out.append(">");
    assert(out@ == before + element_text(t, node));
    proof {
        lemma_element_appended(t, node, before);
    }
}

/// An instance as it would be submitted. What is written of one that can be
/// written reads back as a copy of it.
pub(crate) fn write_document(instance: &Instance) -> (r: String)
    requires
        instance@.wf(),
    ensures
        r@ == document_text(instance@),
        instance@.root matches Some(root) ==> (is_writable(instance@, root) && instance@.size(root)
            <= usize::MAX ==> xml_tree(r@) == Ok::<Tree, Seq<char>>(instance@.subtree(root))),
{
    proof {
        if let Some(root) = instance@.root {
            if is_writable(instance@, root) && instance@.size(root) <= usize::MAX {
                law_written_reads_back(instance@, root);
            }
        }
    }
    let mut out = "<?xml version='1.0' ?>".to_string();
    match instance.root() {
        Some(root) => write_element(instance, root, &mut out),
        None => {
            assert(out@ + Seq::<char>::empty() == out@);
        },
    }
    out
}

} // verus!
