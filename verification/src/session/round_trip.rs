//! What is written reads back.

use crate::session::writing::{
    attributes_text, children_text, document_text, element_text, escaped, escaped_char,
};
use crate::text::{
    begins_with, in_class, is_blank, is_white, lemma_span, lemma_span_back, occurs_at, replace_all,
    span, span_back, trim, trim_end_of, trim_start, Class,
};
use crate::tree::xml::{
    attributes_from, attributes_of, begins_declaration, begins_tag, close_from, first_word,
    local_name, read_from, text_end, unescape, unread, xml_tree, Reading,
};
use crate::tree::{bare_node, NodeId, NodeKind, Tree};
use vstd::prelude::*;

verus! {

// ---------------------------------------------------------------------------
// Escapes
// ---------------------------------------------------------------------------

/// A character as XML writes it, where `plain` of the escapes have been
/// undone already: first that of `<`, then those of `>`, of `"`, and last
/// that of `&`.
spec fn part_escaped_char(c: char, plain: int) -> Seq<char> {
    if c == '&' && plain < 4 {
        "&amp;"@
    } else if c == '<' && plain < 1 {
        "&lt;"@
    } else if c == '>' && plain < 2 {
        "&gt;"@
    } else if c == '"' && plain < 3 {
        "&quot;"@
    } else {
        seq![c]
    }
}

spec fn part_escaped(s: Seq<char>, plain: int) -> Seq<char>
    decreases s.len(),
{
    if s.len() == 0 {
        Seq::empty()
    } else {
        part_escaped_char(s[0], plain) + part_escaped(s.skip(1), plain)
    }
}

/// Characters that no occurrence of a text begins among are passed over.
proof fn lemma_passed(w: Seq<char>, rest: Seq<char>, from: Seq<char>, to: Seq<char>)
    requires
        from.len() > 0,
        forall|i: int| 0 <= i < w.len() ==> !begins_with(#[trigger] (w + rest).skip(i), from),
    ensures
        replace_all(w + rest, from, to) == w + replace_all(rest, from, to),
    decreases w.len(),
{
    let all = w + rest;
    if w.len() == 0 {
        assert(all == rest);
        assert(w + replace_all(rest, from, to) == replace_all(rest, from, to));
    } else {
        let v = w.skip(1);
        assert(all.skip(0) == all);
        assert(!begins_with(all.skip(0), from));
        assert(all.skip(1) == v + rest);
        assert forall|i: int| 0 <= i < v.len() implies !begins_with(
            #[trigger] (v + rest).skip(i),
            from,
        ) by {
            assert((v + rest).skip(i) == all.skip(i + 1));
        }
        lemma_passed(v, rest, from, to);
        assert(replace_all(all, from, to) == seq![all[0]] + replace_all(all.skip(1), from, to));
        assert(seq![w[0]] + (v + replace_all(rest, from, to)) == w + replace_all(rest, from, to));
    }
}

/// An occurrence at the front is replaced.
proof fn lemma_replaced(rest: Seq<char>, from: Seq<char>, to: Seq<char>)
    requires
        from.len() > 0,
    ensures
        replace_all(from + rest, from, to) == to + replace_all(rest, from, to),
{
    let all = from + rest;
    assert(all.subrange(0, from.len() as int) == from);
    assert(all.skip(from.len() as int) == rest);
}

/// A text whose first character is no `&` does not begin with an escape.
proof fn lemma_no_escape(s: Seq<char>, from: Seq<char>)
    requires
        from.len() > 0,
        from[0] == '&',
        s.len() > 0 ==> s[0] != '&',
    ensures
        !begins_with(s, from),
{
    if begins_with(s, from) {
        assert(s.subrange(0, from.len() as int)[0] == from[0]);
    }
}

/// The escape that is undone at each step, and what it stands for.
spec fn step_escape(k: int) -> Seq<char> {
    if k == 0 {
        "&lt;"@
    } else if k == 1 {
        "&gt;"@
    } else if k == 2 {
        "&quot;"@
    } else {
        "&amp;"@
    }
}

spec fn step_plain(k: int) -> Seq<char> {
    if k == 0 {
        "<"@
    } else if k == 1 {
        ">"@
    } else if k == 2 {
        "\""@
    } else {
        "&"@
    }
}

proof fn lemma_literals()
    ensures
        "&lt;"@ == seq!['&', 'l', 't', ';'],
        "&gt;"@ == seq!['&', 'g', 't', ';'],
        "&quot;"@ == seq!['&', 'q', 'u', 'o', 't', ';'],
        "&amp;"@ == seq!['&', 'a', 'm', 'p', ';'],
        "&apos;"@ == seq!['&', 'a', 'p', 'o', 's', ';'],
        "<"@ == seq!['<'],
        ">"@ == seq!['>'],
        "\""@ == seq!['"'],
        "&"@ == seq!['&'],
        "'"@ == seq!['\''],
{
    reveal_strlit("&lt;");
    reveal_strlit("&gt;");
    reveal_strlit("&quot;");
    reveal_strlit("&amp;");
    reveal_strlit("&apos;");
    reveal_strlit("<");
    reveal_strlit(">");
    reveal_strlit("\"");
    reveal_strlit("&");
    reveal_strlit("'");
    assert("&lt;"@ =~= seq!['&', 'l', 't', ';']);
    assert("&gt;"@ =~= seq!['&', 'g', 't', ';']);
    assert("&quot;"@ =~= seq!['&', 'q', 'u', 'o', 't', ';']);
    assert("&amp;"@ =~= seq!['&', 'a', 'm', 'p', ';']);
    assert("&apos;"@ =~= seq!['&', 'a', 'p', 'o', 's', ';']);
    assert("<"@ =~= seq!['<']);
    assert(">"@ =~= seq!['>']);
    assert("\""@ =~= seq!['"']);
    assert("&"@ =~= seq!['&']);
    assert("'"@ =~= seq!['\'']);
}

/// A block of text that starts with `&`, goes on without one, and is told
/// from an escape by its second character, is passed over.
proof fn lemma_block_passed(w: Seq<char>, rest: Seq<char>, from: Seq<char>, to: Seq<char>)
    requires
        from.len() > 2,
        from[0] == '&',
        w.len() > 0,
        w[0] == '&' ==> w.len() > 2 && (w[1] != from[1] || w[2] != from[2]),
        forall|i: int| 1 <= i < w.len() ==> #[trigger] w[i] != '&',
    ensures
        replace_all(w + rest, from, to) == w + replace_all(rest, from, to),
{
    assert forall|i: int| 0 <= i < w.len() implies !begins_with(
        #[trigger] (w + rest).skip(i),
        from,
    ) by {
        let s = (w + rest).skip(i);
        assert(s[0] == w[i]);
        if i == 0 && w[0] == '&' {
            if begins_with(s, from) {
                let p = s.subrange(0, from.len() as int);
                assert(p[1] == s[1] && s[1] == w[1]);
                assert(p[2] == s[2] && s[2] == w[2]);
            }
        } else {
            lemma_no_escape(s, from);
        }
    }
    lemma_passed(w, rest, from, to);
}

/// One escape undone.
proof fn lemma_undone(s: Seq<char>, k: int)
    requires
        0 <= k < 4,
    ensures
        replace_all(part_escaped(s, k), step_escape(k), step_plain(k)) == part_escaped(s, k + 1),
    decreases s.len(),
{
    lemma_literals();
    if s.len() > 0 {
        let rest = s.skip(1);
        lemma_undone(rest, k);
        let c = s[0];
        let tail = part_escaped(rest, k);
        let w = part_escaped_char(c, k);
        if w == step_escape(k) {
            lemma_replaced(tail, step_escape(k), step_plain(k));
            assert(part_escaped_char(c, k + 1) == step_plain(k));
        } else {
            lemma_block_passed(w, tail, step_escape(k), step_plain(k));
            assert(part_escaped_char(c, k + 1) == w);
        }
    }
}

/// No escape of `'` is ever written.
proof fn lemma_no_apostrophes(s: Seq<char>)
    ensures
        replace_all(part_escaped(s, 3), "&apos;"@, "'"@) == part_escaped(s, 3),
    decreases s.len(),
{
    lemma_literals();
    if s.len() > 0 {
        lemma_no_apostrophes(s.skip(1));
        lemma_block_passed(
            part_escaped_char(s[0], 3),
            part_escaped(s.skip(1), 3),
            "&apos;"@,
            "'"@,
        );
    }
}

proof fn lemma_fully_escaped(s: Seq<char>)
    ensures
        part_escaped(s, 0) == escaped(s),
        part_escaped(s, 4) == s,
    decreases s.len(),
{
    if s.len() > 0 {
        lemma_fully_escaped(s.skip(1));
        assert(part_escaped_char(s[0], 0) == escaped_char(s[0]));
        assert(seq![s[0]] + s.skip(1) == s);
    }
}

/// A text that was escaped reads back as it was.
pub proof fn law_escaped_reads_back(s: Seq<char>)
    ensures
        unescape(escaped(s)) == s,
{
    lemma_fully_escaped(s);
    lemma_undone(s, 0);
    lemma_undone(s, 1);
    lemma_undone(s, 2);
    lemma_no_apostrophes(s);
    lemma_undone(s, 3);
}

// ---------------------------------------------------------------------------
// Scanning
// ---------------------------------------------------------------------------

proof fn lemma_span_to(s: Seq<char>, i: int, j: int, k: Class)
    requires
        0 <= i <= j <= s.len(),
        forall|x: int| i <= x < j ==> in_class(k, #[trigger] s[x]),
        j < s.len() ==> !in_class(k, s[j]),
    ensures
        span(s, i, k) == j,
    decreases j - i,
{
    if i < j {
        lemma_span_to(s, i + 1, j, k);
    }
}

proof fn lemma_span_back_to(s: Seq<char>, i: int, j: int, k: Class)
    requires
        0 <= i <= j <= s.len(),
        forall|x: int| i <= x < j ==> in_class(k, #[trigger] s[x]),
        i > 0 ==> !in_class(k, s[i - 1]),
    ensures
        span_back(s, j, k) == i,
    decreases j - i,
{
    if i < j {
        lemma_span_back_to(s, i, j - 1, k);
    }
}

proof fn lemma_blank(s: Seq<char>)
    ensures
        is_blank(s) <==> forall|i: int| 0 <= i < s.len() ==> is_white(#[trigger] s[i]),
{
    let a = span(s, 0, Class::White);
    lemma_span(s, 0, Class::White);
    let t = trim_start(s);
    let b = span_back(t, t.len() as int, Class::White);
    lemma_span_back(t, t.len() as int, Class::White);
    if a < s.len() {
        assert(t[0] == s[a]);
        assert(!is_white(s[a]));
        if b == 0 {
            assert(in_class(Class::White, t[0]));
        }
    } else {
        assert forall|i: int| 0 <= i < s.len() implies is_white(#[trigger] s[i]) by {
            assert(in_class(Class::White, s[i]));
        }
    }
}

/// What is escaped holds no quote and no angle bracket.
proof fn lemma_escaped_clean(s: Seq<char>)
    ensures
        forall|i: int|
            0 <= i < escaped(s).len() ==> (#[trigger] escaped(s)[i]) != '"' && escaped(s)[i] != '<'
                && escaped(s)[i] != '>',
    decreases s.len(),
{
    lemma_literals();
    if s.len() > 0 {
        lemma_escaped_clean(s.skip(1));
        let w = escaped_char(s[0]);
        assert forall|i: int| 0 <= i < escaped(s).len() implies (#[trigger] escaped(s)[i]) != '"'
            && escaped(s)[i] != '<' && escaped(s)[i] != '>' by {
            if i < w.len() {
                assert(escaped(s)[i] == w[i]);
            } else {
                assert(escaped(s)[i] == escaped(s.skip(1))[i - w.len()]);
            }
        }
    }
}

/// Whether one of the four entities that texts are written with stands at
/// `i`.
pub open spec fn is_entity_at(s: Seq<char>, i: int) -> bool {
    ||| occurs_at(s, "&amp;"@, i)
    ||| occurs_at(s, "&lt;"@, i)
    ||| occurs_at(s, "&gt;"@, i)
    ||| occurs_at(s, "&quot;"@, i)
}

proof fn lemma_later(w: Seq<char>, s: Seq<char>, part: Seq<char>, i: int)
    requires
        0 <= i,
        occurs_at(s, part, i),
    ensures
        occurs_at(w + s, part, w.len() + i),
{
    assert((w + s).subrange(w.len() + i, w.len() + i + part.len()) =~= s.subrange(
        i,
        i + part.len(),
    ));
}

/// Whether a text can stand in a document as it is: it holds no bracket and
/// no quote, and every ampersand in it begins one of the entities.
pub open spec fn is_clean(s: Seq<char>) -> bool {
    &&& forall|i: int|
        0 <= i < s.len() ==> (#[trigger] s[i]) != '"' && s[i] != '<' && s[i] != '>'
    &&& forall|i: int| 0 <= i < s.len() && (#[trigger] s[i]) == '&' ==> is_entity_at(s, i)
}

/// A text that is escaped can stand in a document.
pub proof fn law_escaped_text_is_clean(s: Seq<char>)
    ensures
        is_clean(escaped(s)),
    decreases s.len(),
{
    lemma_escaped_clean(s);
    lemma_literals();
    if s.len() > 0 {
        let rest = escaped(s.skip(1));
        law_escaped_text_is_clean(s.skip(1));
        let w = escaped_char(s[0]);
        let all = escaped(s);
        assert(all == w + rest);
        assert forall|i: int| 0 <= i < all.len() && (#[trigger] all[i]) == '&' implies is_entity_at(
            all,
            i,
        ) by {
            if i < w.len() {
                assert(all[i] == w[i]);
                assert(i == 0);
                assert(all.subrange(0, 0 + w.len() as int) =~= w);
                assert(occurs_at(all, w, 0));
            } else {
                let j = i - w.len();
                assert(rest[j] == all[i]);
                assert(is_entity_at(rest, j));
                if occurs_at(rest, "&amp;"@, j) {
                    lemma_later(w, rest, "&amp;"@, j);
                } else if occurs_at(rest, "&lt;"@, j) {
                    lemma_later(w, rest, "&lt;"@, j);
                } else if occurs_at(rest, "&gt;"@, j) {
                    lemma_later(w, rest, "&gt;"@, j);
                } else {
                    lemma_later(w, rest, "&quot;"@, j);
                }
            }
        }
    }
}

/// A text that says something says something when it is escaped.
proof fn lemma_escaped_says(s: Seq<char>)
    requires
        !is_blank(s),
    ensures
        !is_blank(escaped(s)),
    decreases s.len(),
{
    lemma_literals();
    lemma_blank(s);
    lemma_blank(escaped(s));
    let k = choose|k: int| 0 <= k < s.len() && !is_white(#[trigger] s[k]);
    let w = escaped_char(s[0]);
    if k == 0 {
        assert(escaped(s)[0] == w[0]);
    } else {
        let rest = s.skip(1);
        lemma_blank(rest);
        assert(rest[k - 1] == s[k]);
        lemma_escaped_says(rest);
        lemma_blank(escaped(rest));
        let j = choose|j: int| 0 <= j < escaped(rest).len() && !is_white(#[trigger] escaped(rest)[j]);
        assert(escaped(s)[w.len() + j] == escaped(rest)[j]);
    }
}

proof fn lemma_at(s: Seq<char>, part: Seq<char>, at: int)
    requires
        occurs_at(s, part, at),
    ensures
        0 <= at,
        at + part.len() <= s.len(),
        forall|k: int| 0 <= k < part.len() ==> #[trigger] part[k] == s[at + k],
{
    assert forall|k: int| 0 <= k < part.len() implies #[trigger] part[k] == s[at + k] by {
        assert(s.subrange(at, at + part.len())[k] == s[at + k]);
    }
}

/// What occurs in two parts occurs part after part.
proof fn lemma_at_parts(s: Seq<char>, a: Seq<char>, b: Seq<char>, at: int)
    requires
        occurs_at(s, a + b, at),
    ensures
        occurs_at(s, a, at),
        occurs_at(s, b, at + a.len()),
{
    lemma_at(s, a + b, at);
    assert forall|k: int| 0 <= k < a.len() implies s.subrange(at, at + a.len())[k] == a[k] by {
        assert((a + b)[k] == a[k]);
    }
    assert(s.subrange(at, at + a.len()) == a);
    let c = at + a.len();
    assert forall|k: int| 0 <= k < b.len() implies s.subrange(c, c + b.len())[k] == b[k] by {
        assert((a + b)[a.len() + k] == b[k]);
    }
    assert(s.subrange(c, c + b.len()) == b);
}

proof fn lemma_close_run(s: Seq<char>, a: int, b: int)
    requires
        0 <= a <= b <= s.len(),
        forall|j: int|
            a <= j < b ==> (#[trigger] s[j]) != '>' && s[j] != '"' && s[j] != '\'',
    ensures
        close_from(s, a, None) == close_from(s, b, None),
    decreases b - a,
{
    if a < b {
        lemma_close_run(s, a + 1, b);
    }
}

proof fn lemma_close_quoted(s: Seq<char>, a: int, b: int)
    requires
        0 <= a <= b <= s.len(),
        forall|j: int| a <= j < b ==> (#[trigger] s[j]) != '"',
    ensures
        close_from(s, a, Some('"')) == close_from(s, b, Some('"')),
    decreases b - a,
{
    if a < b {
        lemma_close_quoted(s, a + 1, b);
    }
}

// ---------------------------------------------------------------------------
// What can be written
// ---------------------------------------------------------------------------

/// A character that a local name may have: neither white space, nor a
/// character that XML sets aside, nor the one that ends a prefix.
pub open spec fn is_name_char(c: char) -> bool {
    !is_white(c) && c != '<' && c != '>' && c != '"' && c != '\'' && c != '/' && c != '=' && c
        != ':' && c != '&'
}

/// A local name.
pub open spec fn is_name(s: Seq<char>) -> bool {
    &&& s.len() > 0
    &&& s[0] != '?'
    &&& s[0] != '!'
    &&& forall|i: int| 0 <= i < s.len() ==> is_name_char(#[trigger] s[i])
}

/// An element that a document can hold: it and its attributes have names,
/// and it holds elements, or a text that says something, or nothing.
pub open spec fn is_writable_element(t: Tree, n: NodeId) -> bool {
    &&& is_name(t.name(n))
    &&& forall|i: int|
        0 <= i < t.attributes(n).len() ==> is_name(t.name(#[trigger] t.attributes(n)[i]))
    &&& t.value(n).len() > 0 ==> t.children(n).len() == 0 && !is_blank(t.value(n))
}

pub open spec fn is_writable(t: Tree, n: NodeId) -> bool
    decreases t.height(n), t.children(n).len() + 1,
    when t.wf() && t.has(n)
{
    is_writable_element(t, n) && are_writable(t, n, 0)
}

/// Whether the children of a node can be written, from the one at `i` on.
pub open spec fn are_writable(t: Tree, n: NodeId, i: int) -> bool
    decreases t.height(n), t.children(n).len() - i,
    when t.wf() && t.has(n) && 0 <= i
{
    i >= t.children(n).len() || (is_writable(t, t.children(n)[i]) && are_writable(t, n, i + 1))
}

// ---------------------------------------------------------------------------
// Tags
// ---------------------------------------------------------------------------

/// Attributes as a tag gives them.
spec fn pairs(t: Tree, s: Seq<NodeId>, i: int) -> Seq<(Seq<char>, Seq<char>)> {
    Seq::new((s.len() - i) as nat, |k: int| (t.name(s[i + k]), t.value(s[i + k])))
}

spec fn are_named(t: Tree, s: Seq<NodeId>) -> bool {
    forall|i: int| 0 <= i < s.len() ==> is_name(t.name(#[trigger] s[i]))
}

proof fn lemma_tag_literals()
    ensures
        " "@ == seq![' '],
        "=\""@ == seq!['=', '"'],
        "</"@ == seq!['<', '/'],
        "/>"@ == seq!['/', '>'],
        ""@ == Seq::<char>::empty(),
{
    reveal_strlit(" ");
    reveal_strlit("=\"");
    reveal_strlit("</");
    reveal_strlit("/>");
    reveal_strlit("");
    assert(" "@ =~= seq![' ']);
    assert("=\""@ =~= seq!['=', '"']);
    assert("</"@ =~= seq!['<', '/']);
    assert("/>"@ =~= seq!['/', '>']);
    assert(""@ =~= Seq::<char>::empty());
}

/// Whether a text is an attribute of a name and an escaped value, and what
/// follows it.
spec fn has_attribute(text: Seq<char>, name: Seq<char>, value: Seq<char>, more: Seq<char>) -> bool {
    let q = name.len() as int + 2;
    let z = q + 1 + value.len();
    &&& text.len() == z + 1 + more.len()
    &&& text[0] == ' '
    &&& forall|k: int| 1 <= k < q - 1 ==> #[trigger] text[k] == name[k - 1]
    &&& text[q - 1] == '='
    &&& text[q] == '"'
    &&& forall|k: int| q + 1 <= k < z ==> #[trigger] text[k] == value[k - q - 1]
    &&& text[z] == '"'
    &&& text.skip(z + 1) == more
}

proof fn lemma_attribute_chars(t: Tree, s: Seq<NodeId>, i: int)
    requires
        0 <= i < s.len(),
    ensures
        has_attribute(
            attributes_text(t, s, i),
            t.name(s[i]),
            escaped(t.value(s[i])),
            attributes_text(t, s, i + 1),
        ),
{
    lemma_literals();
    lemma_tag_literals();
    let text = attributes_text(t, s, i);
    let name = t.name(s[i]);
    let value = escaped(t.value(s[i]));
    let more = attributes_text(t, s, i + 1);
    let q = name.len() as int + 2;
    let z = q + 1 + value.len();
    let a = seq![' '] + name;
    let b = a + seq!['=', '"'];
    let c = b + value;
    let d = c + seq!['"'];
    assert(text == d + more);
    assert(d.len() == z + 1);
    assert forall|k: int| 1 <= k < q - 1 implies #[trigger] text[k] == name[k - 1] by {
        assert(a[k] == name[k - 1]);
        assert(b[k] == a[k]);
        assert(c[k] == b[k]);
        assert(d[k] == c[k]);
    }
    assert(a[0] == ' ' && b[0] == a[0] && c[0] == b[0] && d[0] == c[0]);
    assert(b[q - 1] == '=' && c[q - 1] == b[q - 1] && d[q - 1] == c[q - 1]);
    assert(b[q] == '"' && c[q] == b[q] && d[q] == c[q]);
    assert forall|k: int| q + 1 <= k < z implies #[trigger] text[k] == value[k - q - 1] by {
        assert(c[k] == value[k - q - 1]);
        assert(d[k] == c[k]);
    }
    assert(d[z] == '"');
    assert(text.skip(z + 1) == more);
}

/// No tag ends in an attribute.
proof fn lemma_close_attribute(
    s: Seq<char>,
    at: int,
    text: Seq<char>,
    name: Seq<char>,
    value: Seq<char>,
    more: Seq<char>,
)
    requires
        has_attribute(text, name, value, more),
        is_name(name),
        forall|k: int| 0 <= k < value.len() ==> (#[trigger] value[k]) != '"',
        occurs_at(s, text, at),
    ensures
        close_from(s, at, None) == close_from(s, at + name.len() + value.len() + 4, None),
        occurs_at(s, more, at + name.len() + value.len() + 4),
        text.len() == name.len() + value.len() + 4 + more.len(),
{
    lemma_at(s, text, at);
    let q = name.len() as int + 2;
    let z = q + 1 + value.len();
    assert forall|j: int| at <= j < at + q implies (#[trigger] s[j]) != '>' && s[j] != '"' && s[j]
        != '\'' by {
        let k = j - at;
        assert(s[j] == text[k]);
        if 1 <= k < q - 1 {
            assert(is_name_char(name[k - 1]));
        }
    }
    lemma_close_run(s, at, at + q);
    assert(s[at + q] == text[q]);
    assert forall|j: int| at + q + 1 <= j < at + z implies (#[trigger] s[j]) != '"' by {
        assert(s[j] == text[j - at]);
    }
    lemma_close_quoted(s, at + q + 1, at + z);
    assert(s[at + z] == text[z]);
    assert(text.take(z + 1) + more == text);
    lemma_at_parts(s, text.take(z + 1), more, at);
}

/// No tag ends among attributes.
proof fn lemma_close_attributes(s: Seq<char>, at: int, t: Tree, ids: Seq<NodeId>, i: int)
    requires
        0 <= i <= ids.len(),
        are_named(t, ids),
        occurs_at(s, attributes_text(t, ids, i), at),
    ensures
        close_from(s, at, None) == close_from(s, at + attributes_text(t, ids, i).len(), None),
    decreases ids.len() - i,
{
    if i < ids.len() {
        lemma_attribute_chars(t, ids, i);
        lemma_escaped_clean(t.value(ids[i]));
        let name = t.name(ids[i]);
        let value = escaped(t.value(ids[i]));
        assert(is_name(name));
        lemma_close_attribute(
            s,
            at,
            attributes_text(t, ids, i),
            name,
            value,
            attributes_text(t, ids, i + 1),
        );
        lemma_close_attributes(s, at + name.len() + value.len() + 4, t, ids, i + 1);
    }
}

proof fn lemma_no_prefix(s: Seq<char>)
    requires
        forall|i: int| 0 <= i < s.len() ==> (#[trigger] s[i]) != ':',
    ensures
        local_name(s) == s,
{
    lemma_span_back_to(s, 0, s.len() as int, Class::Not(':'));
    assert(s.skip(0) == s);
}

proof fn lemma_name_trims(s: Seq<char>)
    requires
        is_name(s),
    ensures
        trim(s) == s,
        local_name(s) == s,
        trim(seq![' '] + s) == s,
{
    assert(is_name_char(s[0]));
    assert(is_name_char(s[s.len() - 1]));
    lemma_span_to(s, 0, 0, Class::White);
    assert(s.skip(0) == s);
    lemma_span_back_to(s, s.len() as int, s.len() as int, Class::White);
    assert(s.take(s.len() as int) == s);
    assert forall|i: int| 0 <= i < s.len() implies (#[trigger] s[i]) != ':' by {
        assert(is_name_char(s[i]));
    }
    lemma_no_prefix(s);
    let w = seq![' '] + s;
    assert(w[1] == s[0]);
    lemma_span_to(w, 0, 1, Class::White);
    assert(w.skip(1) == s);
}

/// An attribute reads back.
proof fn lemma_attribute_read(text: Seq<char>, name: Seq<char>, value: Seq<char>, more: Seq<char>)
    requires
        has_attribute(text, name, value, more),
        is_name(name),
        forall|k: int| 0 <= k < value.len() ==> (#[trigger] value[k]) != '"',
    ensures
        attributes_from(text) == seq![(name, unescape(value))] + attributes_from(more),
{
    let q = name.len() as int + 2;
    let z = q + 1 + value.len();
    lemma_name_trims(name);
    assert forall|x: int| 0 <= x < q - 1 implies in_class(Class::Not('='), #[trigger] text[x]) by {
        if x > 0 {
            assert(is_name_char(name[x - 1]));
        }
    }
    lemma_span_to(text, 0, q - 1, Class::Not('='));
    assert(text.take(q - 1) == seq![' '] + name);
    let after = text.skip(q);
    assert(after[0] == text[q]);
    lemma_span_to(after, 0, 0, Class::White);
    assert(trim_start(after) == after) by {
        assert(after.skip(0) == after);
    }
    lemma_span_to(after, 0, 0, Class::Not('"'));
    let close = 1 + value.len() as int;
    assert forall|x: int| 1 <= x < close implies in_class(Class::Not('"'), #[trigger] after[x]) by {
        assert(after[x] == text[q + x]);
    }
    assert(after[close] == text[z]);
    lemma_span_to(after, 1, close, Class::Not('"'));
    assert(after.subrange(1, close) == value) by {
        assert forall|k: int| 0 <= k < value.len() implies after.subrange(1, close)[k]
            == value[k] by {
            assert(after.subrange(1, close)[k] == text[q + 1 + k]);
        }
    }
    assert(after.skip(close + 1) == more) by {
        assert(after.skip(close + 1) == text.skip(z + 1));
    }
}

/// Attributes read back.
proof fn lemma_attributes_read(t: Tree, ids: Seq<NodeId>, i: int)
    requires
        0 <= i <= ids.len(),
        are_named(t, ids),
    ensures
        attributes_from(attributes_text(t, ids, i)) == pairs(t, ids, i),
    decreases ids.len() - i,
{
    let text = attributes_text(t, ids, i);
    if i >= ids.len() {
        lemma_span(text, 0, Class::Not('='));
        assert(pairs(t, ids, i) == Seq::<(Seq<char>, Seq<char>)>::empty());
    } else {
        lemma_attribute_chars(t, ids, i);
        lemma_escaped_clean(t.value(ids[i]));
        assert(is_name(t.name(ids[i])));
        lemma_attribute_read(
            text,
            t.name(ids[i]),
            escaped(t.value(ids[i])),
            attributes_text(t, ids, i + 1),
        );
        law_escaped_reads_back(t.value(ids[i]));
        lemma_attributes_read(t, ids, i + 1);
        assert(pairs(t, ids, i) == seq![(t.name(ids[i]), t.value(ids[i]))] + pairs(t, ids, i + 1));
    }
}

/// Attributes that were read are those that were copied.
proof fn lemma_attributes_copied(r: Tree, id: NodeId, t: Tree, ids: Seq<NodeId>)
    requires
        are_named(t, ids),
    ensures
        r.with_attributes(id, pairs(t, ids, 0)) == r.with_copies(id, t, ids),
    decreases ids.len(),
{
    if ids.len() > 0 {
        let rest = ids.drop_last();
        assert(are_named(t, rest)) by {
            assert forall|i: int| 0 <= i < rest.len() implies is_name(t.name(#[trigger] rest[i])) by {
                assert(rest[i] == ids[i]);
            }
        }
        lemma_attributes_copied(r, id, t, rest);
        assert(pairs(t, ids, 0).drop_last() == pairs(t, rest, 0));
        assert(is_name(t.name(ids[ids.len() - 1])));
        lemma_name_trims(t.name(ids.last()));
    }
}

/// The text of a tag from its name on, without what closes it.
spec fn tag_text(t: Tree, n: NodeId) -> Seq<char> {
    t.name(n) + attributes_text(t, t.attributes(n), 0)
}

proof fn lemma_tag_ends(t: Tree, n: NodeId)
    requires
        is_name(t.name(n)),
        are_named(t, t.attributes(n)),
    ensures
        tag_text(t, n).len() > 0,
        tag_text(t, n).last() != '/',
        tag_text(t, n)[0] == t.name(n)[0],
        local_name(first_word(tag_text(t, n))) == t.name(n),
        attributes_of(tag_text(t, n)) == pairs(t, t.attributes(n), 0),
{
    let body = tag_text(t, n);
    let name = t.name(n);
    let ids = t.attributes(n);
    let rest = attributes_text(t, ids, 0);
    assert(is_name_char(name[0]));
    lemma_name_trims(name);
    lemma_attributes_last(t, ids, 0);
    if rest.len() == 0 {
        assert(body[body.len() - 1] == name[name.len() - 1]);
        assert(is_name_char(name[name.len() - 1]));
    } else {
        assert(body.last() == rest.last());
    }
    assert(body[0] == name[0]);
    lemma_span_to(body, 0, 0, Class::White);
    assert forall|x: int| 0 <= x < name.len() implies in_class(
        Class::NotWhite,
        #[trigger] body[x],
    ) by {
        assert(body[x] == name[x]);
        assert(is_name_char(name[x]));
    }
    if rest.len() > 0 {
        assert(body[name.len() as int] == rest[0]);
        if ids.len() > 0 {
            lemma_attribute_chars(t, ids, 0);
        }
    }
    lemma_span_to(body, 0, name.len() as int, Class::NotWhite);
    assert(body.subrange(0, name.len() as int) == name);
    assert(body.skip(name.len() as int) == rest);
    lemma_attributes_read(t, ids, 0);
}

/// Attributes end with a quote.
proof fn lemma_attributes_last(t: Tree, ids: Seq<NodeId>, i: int)
    requires
        0 <= i <= ids.len(),
    ensures
        attributes_text(t, ids, i).len() > 0 ==> attributes_text(t, ids, i).last() == '"',
    decreases ids.len() - i,
{
    if i < ids.len() {
        lemma_attribute_chars(t, ids, i);
        lemma_attributes_last(t, ids, i + 1);
        let text = attributes_text(t, ids, i);
        let more = attributes_text(t, ids, i + 1);
        if more.len() > 0 {
            let z = t.name(ids[i]).len() as int + 3 + escaped(t.value(ids[i])).len();
            assert(text.skip(z + 1).last() == text.last());
        }
    }
}

/// The end of a start tag.
spec fn tag_end(slash: bool) -> Seq<char> {
    if slash {
        "/>"@
    } else {
        ">"@
    }
}

/// Where a start tag stands, the reader sees one, up to its end.
proof fn lemma_start_tag(s: Seq<char>, i: int, t: Tree, n: NodeId, slash: bool)
    requires
        is_name(t.name(n)),
        are_named(t, t.attributes(n)),
        occurs_at(s, "<"@ + tag_text(t, n) + tag_end(slash), i),
    ensures
        ({
            let body = tag_text(t, n);
            let end = i + 1 + body.len() + (if slash {
                1int
            } else {
                0
            });
            &&& begins_tag(s, i)
            &&& close_from(s, i, None) == Some(end)
            &&& 0 <= i
            &&& end + 1 <= s.len()
            &&& s.subrange(i + 1, end) == body + (if slash {
                seq!['/']
            } else {
                Seq::empty()
            })
            &&& s.subrange(i + 1, end).len() > 0
            &&& s.subrange(i + 1, end)[0] != '/'
            &&& (s.subrange(i + 1, end).last() == '/') == slash
            &&& trim_end_of(s.subrange(i + 1, end), '/') == body
        }),
{
    lemma_literals();
    lemma_tag_literals();
    let name = t.name(n);
    let ids = t.attributes(n);
    let rest = attributes_text(t, ids, 0);
    let body = tag_text(t, n);
    lemma_tag_ends(t, n);
    lemma_at_parts(s, "<"@ + body, tag_end(slash), i);
    lemma_at_parts(s, "<"@, body, i);
    lemma_at_parts(s, name, rest, i + 1);
    lemma_at(s, "<"@, i);
    lemma_at(s, name, i + 1);
    lemma_at(s, body, i + 1);
    lemma_at(s, tag_end(slash), i + 1 + body.len());
    assert("<"@[0] == s[i + 0]);
    assert(name[0] == s[i + 1 + 0]);
    assert(is_name_char(name[0]));
    assert forall|j: int| i <= j < i + 1 + name.len() implies (#[trigger] s[j]) != '>' && s[j]
        != '"' && s[j] != '\'' by {
        if j > i {
            let k = j - i - 1;
            assert(name[k] == s[i + 1 + k]);
            assert(is_name_char(name[k]));
        }
    }
    lemma_close_run(s, i, i + 1 + name.len());
    lemma_close_attributes(s, i + 1 + name.len(), t, ids, 0);
    let stop = i + 1 + body.len();
    assert(tag_end(slash)[0] == s[stop + 0]);
    if slash {
        assert(tag_end(slash)[1] == s[stop + 1]);
        lemma_close_run(s, stop, stop + 1);
        let inner = s.subrange(i + 1, stop + 1);
        assert(inner == body + seq!['/']) by {
            assert forall|k: int| 0 <= k < body.len() implies inner[k] == body[k] by {
                assert(body[k] == s[i + 1 + k]);
            }
        }
        assert(inner[body.len() - 1] == body[body.len() - 1]);
        assert(inner[0] == body[0]);
        assert forall|x: int| body.len() <= x < inner.len() implies in_class(
            Class::Is('/'),
            #[trigger] inner[x],
        ) by {}
        lemma_span_back_to(inner, body.len() as int, inner.len() as int, Class::Is('/'));
        assert(inner.take(body.len() as int) == body);
    } else {
        let inner = s.subrange(i + 1, stop);
        assert(inner == body);
        assert(body + Seq::<char>::empty() == body);
        lemma_span_back_to(inner, body.len() as int, inner.len() as int, Class::Is('/'));
        assert(inner.take(body.len() as int) == body);
    }
}

/// Where a closing tag stands, the reader closes the element it is of.
proof fn lemma_end_tag(r: Reading, s: Seq<char>, i: int, name: Seq<char>)
    requires
        is_name(name),
        occurs_at(s, "</"@ + name + ">"@, i),
        r.open.len() > 0,
        r.tree.name(r.open.last()) == name,
    ensures
        read_from(r, s, i) == read_from(
            Reading { open: r.open.drop_last(), ..r },
            s,
            i + name.len() + 3,
        ),
{
    lemma_literals();
    lemma_tag_literals();
    lemma_at_parts(s, "</"@ + name, ">"@, i);
    lemma_at_parts(s, "</"@, name, i);
    lemma_at(s, "</"@, i);
    lemma_at(s, name, i + 2);
    lemma_at(s, ">"@, i + 2 + name.len());
    assert("</"@[0] == s[i + 0] && "</"@[1] == s[i + 1]);
    let end = i + 2 + name.len();
    assert(">"@[0] == s[end + 0]);
    assert forall|j: int| i <= j < end implies (#[trigger] s[j]) != '>' && s[j] != '"' && s[j]
        != '\'' by {
        if j >= i + 2 {
            let k = j - i - 2;
            assert(name[k] == s[i + 2 + k]);
            assert(is_name_char(name[k]));
        }
    }
    lemma_close_run(s, i, end);
    let inner = s.subrange(i + 1, end);
    assert(inner[0] == '/');
    assert(inner.skip(1) == name) by {
        assert forall|k: int| 0 <= k < name.len() implies inner.skip(1)[k] == name[k] by {
            assert(name[k] == s[i + 2 + k]);
        }
    }
    lemma_name_trims(name);
}

// ---------------------------------------------------------------------------
// Elements
// ---------------------------------------------------------------------------

/// A value may be set before or after attributes are.
proof fn lemma_value_late(
    r: Tree,
    t: Tree,
    ids: Seq<NodeId>,
    name: Seq<char>,
    value: Seq<char>,
)
    requires
        r.nodes.len() + 1 + ids.len() <= usize::MAX,
    ensures
        ({
            let id = NodeId(r.nodes.len() as usize);
            let a = r.grown(bare_node(NodeKind::Element, name, ""@)).with_copies(id, t, ids);
            let b = r.grown(bare_node(NodeKind::Element, name, value)).with_copies(id, t, ids);
            a.with_value(id, value) == b && a.name(id) == name && a.nodes.len() == r.nodes.len() + 1
                + ids.len()
        }),
{
    let id = NodeId(r.nodes.len() as usize);
    let x = r.grown(bare_node(NodeKind::Element, name, ""@));
    let y = r.grown(bare_node(NodeKind::Element, name, value));
    x.lemma_with_copies(y, id, t, ids);
    let a = x.with_copies(id, t, ids);
    let b = y.with_copies(id, t, ids);
    let c = a.with_value(id, value);
    assert(a.attributes(id).skip(0) == a.attributes(id));
    assert(b.attributes(id).skip(0) == b.attributes(id));
    assert(c.nodes =~= b.nodes) by {
        assert forall|j: int| 0 <= j < c.nodes.len() implies c.nodes[j] == b.nodes[j] by {
            if j < r.nodes.len() {
                assert(a.nodes[j] == x.nodes[j]);
                assert(b.nodes[j] == y.nodes[j]);
            } else if j == id.0 {
            } else {
                assert(a.nodes[j] == b.nodes[j]);
            }
        }
    }
}

/// A node may be hung before or after copies are put below it.
proof fn lemma_hung_early(x: Tree, t: Tree, n: NodeId, parent: NodeId, id: NodeId)
    requires
        t.wf(),
        t.has(n),
        parent.0 < x.nodes.len(),
        id.0 < x.nodes.len(),
        parent != id,
        x.nodes.len() + t.size_below(n, 0) <= usize::MAX,
    ensures
        x.appended(parent, id).adopted_below(t, n, 0, id) == x.adopted_below(
            t,
            n,
            0,
            id,
        ).appended(parent, id),
        x.appended(parent, id).adopted_below(t, n, 0, id).name(id) == x.name(id),
{
    let y = x.appended(parent, id);
    y.lemma_adopted_below(x, t, n, 0, id);
    let a = y.adopted_below(t, n, 0, id);
    let b0 = x.adopted_below(t, n, 0, id);
    let b = b0.appended(parent, id);
    assert(y.children(id) == x.children(id));
    assert(a.children(id) == b0.children(id)) by {
        let l = x.children(id).len() as int;
        assert(a.children(id) == a.children(id).take(l) + a.children(id).skip(l));
        assert(b0.children(id) == b0.children(id).take(l) + b0.children(id).skip(l));
    }
    assert(a.nodes =~= b.nodes) by {
        assert forall|j: int| 0 <= j < a.nodes.len() implies a.nodes[j] == b.nodes[j] by {
            if j == id.0 {
            } else if j == parent.0 {
                assert(a.nodes[j] == y.nodes[j]);
                assert(b0.nodes[j] == x.nodes[j]);
            } else if j < x.nodes.len() {
                assert(a.nodes[j] == y.nodes[j]);
                assert(b0.nodes[j] == x.nodes[j]);
            } else {
                assert(a.nodes[j] == b0.nodes[j]);
            }
        }
    }
}

/// What has been read once an element has.
spec fn read_element(r: Reading, t: Tree, n: NodeId) -> Reading {
    let id = NodeId(r.tree.nodes.len() as usize);
    let copy = r.tree.adopted(t, n);
    Reading {
        tree: if r.open.len() == 0 {
            copy
        } else {
            copy.appended(r.open.last(), id)
        },
        open: r.open,
        root: if r.open.len() == 0 {
            Some(id)
        } else {
            r.root
        },
        ..r
    }
}

/// Whether an element can be read next.
spec fn can_read(r: Reading) -> bool {
    if r.open.len() == 0 {
        r.root is None
    } else {
        r.open.last().0 < r.tree.nodes.len()
    }
}

proof fn lemma_element_begins(t: Tree, n: NodeId)
    requires
        t.wf(),
        t.has(n),
    ensures
        element_text(t, n).len() > 0,
        element_text(t, n)[0] == '<',
{
    lemma_literals();
    let start = "<"@ + t.name(n) + attributes_text(t, t.attributes(n), 0);
    assert(start[0] == '<');
    assert(element_text(t, n).len() >= start.len());
    assert(element_text(t, n)[0] == start[0]);
}

/// What the reader makes of a start tag.
proof fn lemma_opened(r: Reading, s: Seq<char>, i: int, t: Tree, n: NodeId, slash: bool)
    requires
        is_writable_element(t, n),
        occurs_at(s, "<"@ + tag_text(t, n) + tag_end(slash), i),
        can_read(r),
    ensures
        ({
            let id = NodeId(r.tree.nodes.len() as usize);
            let bare = r.tree.grown(
                bare_node(NodeKind::Element, t.name(n), ""@),
            ).with_copies(id, t, t.attributes(n));
            let hung = if r.open.len() == 0 {
                bare
            } else {
                bare.appended(r.open.last(), id)
            };
            let root = if r.open.len() == 0 {
                Some(id)
            } else {
                r.root
            };
            let end = i + 1 + tag_text(t, n).len() + (if slash {
                1int
            } else {
                0
            });
            let stop = text_end(s, end + 1);
            let text = s.subrange(end + 1, stop);
            read_from(r, s, i) == read_from(
                if slash {
                    Reading { tree: hung, root, ..r }
                } else {
                    Reading {
                        tree: if is_blank(text) {
                            hung
                        } else {
                            hung.with_value(id, unescape(text))
                        },
                        open: r.open.push(id),
                        root,
                        ..r
                    }
                },
                s,
                if slash {
                    end + 1
                } else {
                    stop
                },
            )
        }),
{
    assert(are_named(t, t.attributes(n)));
    lemma_start_tag(s, i, t, n, slash);
    lemma_tag_ends(t, n);
    let id = NodeId(r.tree.nodes.len() as usize);
    lemma_attributes_copied(
        r.tree.grown(bare_node(NodeKind::Element, t.name(n), ""@)),
        id,
        t,
        t.attributes(n),
    );
}

/// An element under construction: named and with its attributes, in its
/// place.
spec fn hung(r: Reading, t: Tree, n: NodeId, value: Seq<char>) -> Tree {
    let id = NodeId(r.tree.nodes.len() as usize);
    let x = r.tree.grown(bare_node(NodeKind::Element, t.name(n), value)).with_copies(
        id,
        t,
        t.attributes(n),
    );
    if r.open.len() == 0 {
        x
    } else {
        x.appended(r.open.last(), id)
    }
}

proof fn lemma_hung(r: Reading, t: Tree, n: NodeId)
    requires
        can_read(r),
        r.tree.nodes.len() + 1 + t.attributes(n).len() <= usize::MAX,
    ensures
        ({
            let id = NodeId(r.tree.nodes.len() as usize);
            &&& hung(r, t, n, ""@).with_value(id, t.value(n)) == hung(r, t, n, t.value(n))
            &&& hung(r, t, n, ""@).name(id) == t.name(n)
            &&& hung(r, t, n, t.value(n)).name(id) == t.name(n)
            &&& hung(r, t, n, ""@).nodes.len() == r.tree.nodes.len() + 1 + t.attributes(n).len()
        }),
{
    let id = NodeId(r.tree.nodes.len() as usize);
    lemma_value_late(r.tree, t, t.attributes(n), t.name(n), t.value(n));
    let x = r.tree.grown(bare_node(NodeKind::Element, t.name(n), ""@)).with_copies(
        id,
        t,
        t.attributes(n),
    );
    let y = r.tree.grown(bare_node(NodeKind::Element, t.name(n), t.value(n))).with_copies(
        id,
        t,
        t.attributes(n),
    );
    if r.open.len() > 0 {
        let a = x.appended(r.open.last(), id).with_value(id, t.value(n));
        let b = y.appended(r.open.last(), id);
        assert(a.nodes =~= b.nodes);
    }
}

/// An element that holds nothing.
proof fn lemma_read_empty(r: Reading, s: Seq<char>, i: int, t: Tree, n: NodeId)
    requires
        t.wf(),
        t.has(n),
        is_writable_element(t, n),
        t.children(n).len() == 0,
        t.value(n).len() == 0,
        occurs_at(s, element_text(t, n), i),
        can_read(r),
    ensures
        read_from(r, s, i) == read_from(
            read_element(r, t, n),
            s,
            i + element_text(t, n).len(),
        ),
{
    lemma_tag_literals();
    lemma_literals();
    assert(t.value(n) =~= ""@);
    let start = "<"@ + t.name(n) + attributes_text(t, t.attributes(n), 0);
    assert(start == "<"@ + tag_text(t, n));
    lemma_opened(r, s, i, t, n, true);
    assert(element_text(t, n).len() == tag_text(t, n).len() + 3);
    assert(read_element(r, t, n).tree == hung(r, t, n, ""@));
}

/// An element that holds a text.
proof fn lemma_read_text(r: Reading, s: Seq<char>, i: int, t: Tree, n: NodeId)
    requires
        t.wf(),
        t.has(n),
        is_writable_element(t, n),
        t.children(n).len() == 0,
        t.value(n).len() > 0,
        occurs_at(s, element_text(t, n), i),
        can_read(r),
        r.tree.nodes.len() + t.size(n) <= usize::MAX,
    ensures
        read_from(r, s, i) == read_from(
            read_element(r, t, n),
            s,
            i + element_text(t, n).len(),
        ),
{
    lemma_tag_literals();
    lemma_literals();
    let name = t.name(n);
    let id = NodeId(r.tree.nodes.len() as usize);
    let start = "<"@ + name + attributes_text(t, t.attributes(n), 0);
    let end = "</"@ + name + ">"@;
    let text = escaped(t.value(n));
    assert(start == "<"@ + tag_text(t, n));
    assert(element_text(t, n) == (start + ">"@) + (text + end));
    lemma_at_parts(s, start + ">"@, text + end, i);
    lemma_opened(r, s, i, t, n, false);
    let at = i + start.len() + 1;
    lemma_at_parts(s, text, end, at);
    assert(s.subrange(at, at + text.len()) == text);
    assert(span(s, at, Class::Not('<')) == at + text.len()) by {
        lemma_at(s, text, at);
        lemma_at(s, end, at + text.len());
        lemma_escaped_clean(t.value(n));
        assert(end[0] == '<') by {
            assert(("</"@ + name)[0] == '<');
        }
        assert forall|j: int| at <= j < at + text.len() implies in_class(
            Class::Not('<'),
            #[trigger] s[j],
        ) by {
            assert(text[j - at] == s[at + (j - at)]);
        }
        lemma_span_to(s, at, at + text.len(), Class::Not('<'));
    }
    lemma_escaped_says(t.value(n));
    law_escaped_reads_back(t.value(n));
    lemma_hung(r, t, n);
    let next = Reading {
        tree: hung(r, t, n, t.value(n)),
        open: r.open.push(id),
        root: if r.open.len() == 0 {
            Some(id)
        } else {
            r.root
        },
        ..r
    };
    assert(read_from(r, s, i) == read_from(next, s, at + text.len()));
    assert(next.open.drop_last() == r.open);
    lemma_end_tag(next, s, at + text.len(), name);
    assert(read_element(r, t, n).tree == next.tree);
    assert(at + text.len() + name.len() + 3 == i + element_text(t, n).len());
}

/// An element that holds elements.
proof fn lemma_read_parent(r: Reading, s: Seq<char>, i: int, t: Tree, n: NodeId)
    requires
        t.wf(),
        t.has(n),
        is_writable(t, n),
        t.children(n).len() > 0,
        occurs_at(s, element_text(t, n), i),
        can_read(r),
        r.tree.nodes.len() + t.size(n) <= usize::MAX,
    ensures
        read_from(r, s, i) == read_from(
            read_element(r, t, n),
            s,
            i + element_text(t, n).len(),
        ),
    decreases t.height(n), t.children(n).len() + 1,
{
    lemma_tag_literals();
    lemma_literals();
    let name = t.name(n);
    let id = NodeId(r.tree.nodes.len() as usize);
    let start = "<"@ + name + attributes_text(t, t.attributes(n), 0);
    let end = "</"@ + name + ">"@;
    let text = children_text(t, n, 0);
    assert(t.value(n) =~= ""@);
    assert(start == "<"@ + tag_text(t, n));
    assert(element_text(t, n) == (start + ">"@) + (text + end));
    lemma_at_parts(s, start + ">"@, text + end, i);
    lemma_opened(r, s, i, t, n, false);
    let at = i + start.len() + 1;
    lemma_at_parts(s, text, end, at);
    assert(span(s, at, Class::Not('<')) == at) by {
        t.lemma_children_in(n);
        let child = t.children(n)[0];
        assert(t.has(child));
        lemma_element_begins(t, child);
        assert(text[0] == element_text(t, child)[0]);
        lemma_at(s, text, at);
        assert(text[0] == s[at + 0]);
        lemma_span_to(s, at, at, Class::Not('<'));
    }
    lemma_blank(s.subrange(at, at));
    lemma_hung(r, t, n);
    let next = Reading {
        tree: hung(r, t, n, ""@),
        open: r.open.push(id),
        root: if r.open.len() == 0 {
            Some(id)
        } else {
            r.root
        },
        ..r
    };
    assert(read_from(r, s, i) == read_from(next, s, at));
    lemma_read_children(next, s, at, t, n, 0);
    let last = Reading { tree: next.tree.adopted_below(t, n, 0, id), ..next };
    let x = r.tree.grown(bare_node(NodeKind::Element, name, ""@)).with_copies(
        id,
        t,
        t.attributes(n),
    );
    lemma_value_late(r.tree, t, t.attributes(n), name, ""@);
    assert(x.adopted_below(t, n, 0, id) == r.tree.adopted(t, n));
    if r.open.len() > 0 {
        lemma_hung_early(x, t, n, r.open.last(), id);
    } else {
        x.lemma_adopted_below(x, t, n, 0, id);
    }
    assert(last.open.drop_last() == r.open);
    lemma_end_tag(last, s, at + text.len(), name);
    assert(read_element(r, t, n).tree == last.tree);
    assert(at + text.len() + name.len() + 3 == i + element_text(t, n).len());
}

proof fn lemma_read_element(r: Reading, s: Seq<char>, i: int, t: Tree, n: NodeId)
    requires
        t.wf(),
        t.has(n),
        is_writable(t, n),
        occurs_at(s, element_text(t, n), i),
        can_read(r),
        r.tree.nodes.len() + t.size(n) <= usize::MAX,
    ensures
        read_from(r, s, i) == read_from(
            read_element(r, t, n),
            s,
            i + element_text(t, n).len(),
        ),
    decreases t.height(n), t.children(n).len() + 2,
{
    if t.children(n).len() > 0 {
        lemma_read_parent(r, s, i, t, n);
    } else if t.value(n).len() > 0 {
        lemma_read_text(r, s, i, t, n);
    } else {
        lemma_read_empty(r, s, i, t, n);
    }
}

proof fn lemma_read_children(r: Reading, s: Seq<char>, i: int, t: Tree, n: NodeId, k: int)
    requires
        t.wf(),
        t.has(n),
        0 <= k,
        are_writable(t, n, k),
        occurs_at(s, children_text(t, n, k), i),
        r.open.len() > 0,
        can_read(r),
        r.tree.nodes.len() + t.size_below(n, k) <= usize::MAX,
    ensures
        read_from(r, s, i) == read_from(
            Reading { tree: r.tree.adopted_below(t, n, k, r.open.last()), ..r },
            s,
            i + children_text(t, n, k).len(),
        ),
    decreases t.height(n), t.children(n).len() - k,
{
    if k < t.children(n).len() {
        let child = t.children(n)[k];
        t.lemma_ranking();
        t.lemma_children_in(n);
        assert(t.nodes[n.0 as int].children[k] == child);
        assert(t.has(child));
        let first = element_text(t, child);
        lemma_at_parts(s, first, children_text(t, n, k + 1), i);
        lemma_read_element(r, s, i, t, child);
        r.tree.lemma_adopted(r.tree, t, child);
        let next = read_element(r, t, child);
        lemma_read_children(next, s, i + first.len(), t, n, k + 1);
    }
}

/// Reading passes over the declaration at the head of a document.
proof fn lemma_declaration(r: Reading, s: Seq<char>)
    requires
        r.root is None,
        occurs_at(s, "<?xml version='1.0' ?>"@, 0),
    ensures
        read_from(r, s, 0) == read_from(r, s, 22),
{
    reveal_strlit("<?xml version='1.0' ?>");
    let d = "<?xml version='1.0' ?>"@;
    lemma_at(s, d, 0);
    assert forall|k: int| 0 <= k < 22 implies #[trigger] s[k] == d[k] by {
        assert(d[k] == s[0 + k]);
    }
    assert(begins_declaration(s, 0));
    assert(s[14] == '\'' && s[18] == '\'' && s[21] == '>');
    reveal_with_fuel(close_from, 23);
    assert(close_from(s, 0, None) == Some(21int));
}

/// What is written of an instance reads back as that instance: the document
/// is read without an error, and what is read is a copy of what was written,
/// every element with its name, its attributes, its text and its children.
///
/// An element that has both a text and children is not written whole, a text
/// of nothing but white space is not read, and a name with a character that
/// XML sets aside is no name. The copy has to fit what a machine word counts.
pub proof fn law_written_reads_back(t: Tree, root: NodeId)
    requires
        t.wf(),
        t.root == Some(root),
        is_writable(t, root),
        t.size(root) <= usize::MAX,
    ensures
        xml_tree(document_text(t)) == Ok::<Tree, Seq<char>>(t.subtree(root)),
{
    reveal_strlit("<?xml version='1.0' ?>");
    let d = "<?xml version='1.0' ?>"@;
    let s = document_text(t);
    let text = element_text(t, root);
    assert(s == d + text);
    assert(s.subrange(0, s.len() as int) == s);
    lemma_at_parts(s, d, text, 0);
    let r = unread(false);
    lemma_declaration(r, s);
    lemma_read_element(r, s, 22, t, root);
}

/// What is written of one element reads back as what is below it: the text
/// of an element is a document whose tree is a copy of that element, with
/// its attributes, its text and its children.
pub proof fn law_element_reads_back(t: Tree, n: NodeId)
    requires
        t.wf(),
        t.has(n),
        is_writable(t, n),
        t.size(n) <= usize::MAX,
    ensures
        xml_tree(element_text(t, n)) == Ok::<Tree, Seq<char>>(t.subtree(n)),
{
    let s = element_text(t, n);
    assert(s.subrange(0, s.len() as int) == s);
    lemma_read_element(unread(false), s, 0, t, n);
}

} // verus!
