//! Instances from XML.

use crate::text::{
    after_last, blank, cat5, chars_of, end_of_run, is_blank, is_white, lemma_span, past_last,
    replace_all, replaced, seen, slice, slice_chars, span, string_of, trim, trim_end_of, trim_start,
    trimmed, trimmed_chars, trimmed_end_of, white, Class,
};
use crate::tree::layout::law_documents_are_laid_out;
use crate::tree::{bare_node, Instance, NodeId, NodeKind, Tree};
use vstd::prelude::*;

verus! {

/// Where the tag ends that is open at `j`: the next `>` outside quotes.
pub open spec fn close_from(s: Seq<char>, j: int, quote: Option<char>) -> Option<int>
    decreases s.len() - j,
{
    if j < 0 || j >= s.len() {
        None
    } else {
        match quote {
            Some(q) => close_from(
                s,
                j + 1,
                if s[j] == q {
                    None
                } else {
                    quote
                },
            ),
            None => if s[j] == '>' {
                Some(j)
            } else if s[j] == '"' || s[j] == '\'' {
                close_from(s, j + 1, Some(s[j]))
            } else {
                close_from(s, j + 1, None)
            },
        }
    }
}

pub open spec fn local_name(qname: Seq<char>) -> Seq<char> {
    after_last(qname, ':')
}

pub open spec fn unescape(text: Seq<char>) -> Seq<char> {
    let a = replace_all(text, "&lt;"@, "<"@);
    let b = replace_all(a, "&gt;"@, ">"@);
    let c = replace_all(b, "&quot;"@, "\""@);
    let d = replace_all(c, "&apos;"@, "'"@);
    replace_all(d, "&amp;"@, "&"@)
}

/// The keys and values in the text of a tag, up to the first that has no
/// quoted value.
pub open spec fn attributes_from(rest: Seq<char>) -> Seq<(Seq<char>, Seq<char>)>
    decreases rest.len(),
{
    let eq = span(rest, 0, Class::Not('='));
    if eq >= rest.len() {
        Seq::empty()
    } else {
        let key = trim(rest.take(eq));
        let after = rest.skip(eq + 1);
        let t = trim_start(after);
        if t.len() == 0 || (t[0] != '"' && t[0] != '\'') {
            Seq::empty()
        } else {
            let start = span(after, 0, Class::Not(t[0])) + 1;
            let close = span(after, start, Class::Not(t[0]));
            if close >= after.len() {
                Seq::empty()
            } else {
                proof {
                    lemma_attribute_bounds(rest);
                }
                (if key.len() == 0 {
                    Seq::empty()
                } else {
                    seq![(key, unescape(after.subrange(start, close)))]
                }) + attributes_from(after.skip(close + 1))
            }
        }
    }
}

pub proof fn lemma_attribute_bounds(rest: Seq<char>)
    ensures
        ({
            let eq = span(rest, 0, Class::Not('='));
            let after = rest.skip(eq + 1);
            let t = trim_start(after);
            let start = span(after, 0, Class::Not(t[0])) + 1;
            let close = span(after, start, Class::Not(t[0]));
            &&& 0 <= eq <= rest.len()
            &&& eq < rest.len() && t.len() > 0 ==> 1 <= start <= after.len() && start <= close
                <= after.len()
        }),
{
    lemma_span(rest, 0, Class::Not('='));
    let eq = span(rest, 0, Class::Not('='));
    if eq < rest.len() {
        let after = rest.skip(eq + 1);
        lemma_span(after, 0, Class::White);
        let w = span(after, 0, Class::White);
        let t = trim_start(after);
        if t.len() > 0 {
            assert(t[0] == after[w]);
            lemma_span(after, 0, Class::Not(t[0]));
            let a = span(after, 0, Class::Not(t[0]));
            if a >= after.len() {
                assert(crate::text::in_class(Class::Not(t[0]), after[w]));
            }
            lemma_span(after, a + 1, Class::Not(t[0]));
        }
    }
}

pub open spec fn attributes_of(inner: Seq<char>) -> Seq<(Seq<char>, Seq<char>)> {
    attributes_from(inner.skip(span(inner, 0, Class::NotWhite)))
}

pub open spec fn first_word(s: Seq<char>) -> Seq<char> {
    let a = span(s, 0, Class::White);
    s.subrange(a, span(s, a, Class::NotWhite))
}

impl Tree {
    /// The tree with named values as attributes of `id`.
    pub open spec fn with_attributes(self, id: NodeId, list: Seq<(Seq<char>, Seq<char>)>) -> Tree
        decreases list.len(),
    {
        if list.len() == 0 {
            self
        } else {
            self.with_attributes(id, list.drop_last()).attributed(
                id,
                local_name(list.last().0),
                list.last().1,
            )
        }
    }
}

/// What has been read of a document.
#[verifier::ext_equal]
pub struct Reading {
    pub tree: Tree,
    /// The elements that are open, the innermost last.
    pub open: Seq<NodeId>,
    pub root: Option<NodeId>,
    /// Whether text is passed over that stands elsewhere than behind the
    /// start of an element.
    pub loose: bool,
}

/// What has been read of a document before its first character.
pub open spec fn unread(loose: bool) -> Reading {
    Reading { tree: Tree::empty(), open: Seq::empty(), root: None, loose }
}

/// A closing tag ends the innermost open element, whose name it must have.
pub open spec fn closed(r: Reading, name: Seq<char>) -> Result<Reading, Seq<char>> {
    if r.open.len() == 0 {
        Err("closing tag without opening"@)
    } else {
        let expected = local_name(trim(name));
        let actual = r.tree.name(r.open.last());
        if actual != expected {
            Err("closing </"@ + expected + "> does not match open <"@ + actual + ">"@)
        } else {
            Ok(Reading { open: r.open.drop_last(), ..r })
        }
    }
}

/// An opening tag adds an element, under the innermost open one, and `text`
/// is what follows the tag.
pub open spec fn opened(r: Reading, inner: Seq<char>, text: Seq<char>) -> Result<
    Reading,
    Seq<char>,
> {
    let closes = inner.len() > 0 && inner.last() == '/';
    let body = trim_end_of(inner, '/');
    let id = NodeId(r.tree.nodes.len() as usize);
    let bare = r.tree.grown(
        bare_node(NodeKind::Element, local_name(first_word(body)), ""@),
    ).with_attributes(id, attributes_of(body));
    if r.open.len() == 0 && r.root is Some {
        Err("more than one root element"@)
    } else {
        let root = if r.open.len() == 0 {
            Some(id)
        } else {
            r.root
        };
        let hung = if r.open.len() == 0 {
            bare
        } else {
            bare.appended(r.open.last(), id)
        };
        if closes {
            Ok(Reading { tree: hung, root, ..r })
        } else {
            let tree = if is_blank(text) {
                hung
            } else {
                hung.with_value(id, unescape(text))
            };
            Ok(Reading { tree, open: r.open.push(id), root, ..r })
        }
    }
}

/// Where the text of an element ends that begins at `start`.
pub open spec fn text_end(s: Seq<char>, start: int) -> int {
    span(s, start, Class::Not('<'))
}

/// What the tag from `i` to `end` does.
pub open spec fn tagged(r: Reading, s: Seq<char>, i: int, end: int) -> Result<Reading, Seq<char>> {
    let inner = s.subrange(i + 1, end);
    if inner.len() > 0 && inner[0] == '/' {
        closed(r, inner.skip(1))
    } else {
        opened(r, inner, s.subrange(end + 1, text_end(s, end + 1)))
    }
}

/// Where reading goes on behind the tag from `i` to `end`: behind the text
/// of the element, where the tag starts one that holds anything.
pub open spec fn past_tag(s: Seq<char>, i: int, end: int) -> int {
    let inner = s.subrange(i + 1, end);
    if inner.len() > 0 && (inner[0] == '/' || inner.last() == '/') {
        end + 1
    } else {
        text_end(s, end + 1)
    }
}

/// What is said of a document that holds anything beyond elements,
/// attributes and text.
pub const UNEXPECTED: &'static str = "a document holds elements, attributes and text, and nothing else";

/// What is said of a document with text where none is read: outside the
/// root, or behind a child.
pub const STRAY: &'static str = "text stands where a document holds none: at the start of an element alone";

/// Whether a character may stand between tags: white space, and the mark of
/// byte order at the head of a document.
pub open spec fn is_idle(s: Seq<char>, i: int) -> bool {
    is_white(s[i]) || (i == 0 && s[i] == '\u{feff}')
}

/// Whether a tag begins at `i`: comments, instructions and the like do not.
pub open spec fn begins_tag(s: Seq<char>, i: int) -> bool {
    s[i] == '<' && !(i + 1 < s.len() && (s[i + 1] == '?' || s[i + 1] == '!'))
}

/// Whether the declaration begins at `i` that may stand before the root of a
/// document.
pub open spec fn begins_declaration(s: Seq<char>, i: int) -> bool {
    &&& i + 5 < s.len()
    &&& s[i] == '<'
    &&& s[i + 1] == '?'
    &&& s[i + 2] == 'x'
    &&& s[i + 3] == 'm'
    &&& s[i + 4] == 'l'
    &&& is_white(s[i + 5])
}

/// A document read from `i` on.
pub open spec fn read_from(r: Reading, s: Seq<char>, i: int) -> Result<Reading, Seq<char>>
    decreases s.len() - i,
{
    if i < 0 || i >= s.len() {
        Ok(r)
    } else if s[i] != '<' {
        if r.loose || is_idle(s, i) {
            read_from(r, s, i + 1)
        } else {
            Err(STRAY@)
        }
    } else {
        let declares = r.root is None && begins_declaration(s, i);
        if !declares && !begins_tag(s, i) {
            Err(UNEXPECTED@)
        } else {
            match close_from(s, i, None) {
                None => Err("unterminated tag"@),
                Some(end) => {
                    proof {
                        lemma_close_from(s, i, None);
                        lemma_span(s, end + 1, Class::Not('<'));
                    }
                    if declares {
                        read_from(r, s, end + 1)
                    } else {
                        match tagged(r, s, i, end) {
                            Err(e) => Err(e),
                            Ok(next) => read_from(next, s, past_tag(s, i, end)),
                        }
                    }
                },
            }
        }
    }
}

/// The tree of a document that has been read, or what is wrong with it.
pub open spec fn finished(r: Result<Reading, Seq<char>>) -> Result<Tree, Seq<char>> {
    match r {
        Err(e) => Err(e),
        Ok(r) => if r.open.len() > 0 {
            Err("unclosed elements"@)
        } else {
            match r.root {
                None => Err("no root element"@),
                Some(root) => Ok((Tree { root: Some(root), ..r.tree }).reindexed()),
            }
        },
    }
}

/// The tree that a document writes, or what is wrong with it.
pub open spec fn xml_tree(s: Seq<char>) -> Result<Tree, Seq<char>> {
    finished(read_from(unread(false), s, 0))
}

/// The tree that a form writes. What a form shows beside its questions may
/// be mixed of text and elements, and no rule reads it.
pub open spec fn form_tree(s: Seq<char>) -> Result<Tree, Seq<char>> {
    finished(read_from(unread(true), s, 0))
}

pub proof fn lemma_close_from(s: Seq<char>, j: int, quote: Option<char>)
    requires
        0 <= j,
    ensures
        close_from(s, j, quote) matches Some(e) ==> j <= e < s.len(),
    decreases s.len() - j,
{
    if j < s.len() {
        lemma_close_from(
            s,
            j + 1,
            match quote {
                Some(q) => if s[j] == q {
                    None
                } else {
                    quote
                },
                None => if s[j] == '"' || s[j] == '\'' {
                    Some(s[j])
                } else {
                    None
                },
            },
        );
    }
}

/// What is read in the loose way, where it was read in the strict one.
spec fn loosened(r: Reading) -> Reading {
    Reading { loose: true, ..r }
}

proof fn lemma_tagged_loosely(r: Reading, s: Seq<char>, i: int, end: int)
    ensures
        tagged(loosened(r), s, i, end) == match tagged(r, s, i, end) {
            Ok(next) => Ok(loosened(next)),
            Err(e) => Err(e),
        },
        tagged(r, s, i, end) matches Ok(next) ==> next.loose == r.loose,
{
}

proof fn lemma_read_loosely(r: Reading, s: Seq<char>, i: int)
    requires
        !r.loose,
        read_from(r, s, i) != Err::<Reading, Seq<char>>(STRAY@),
    ensures
        read_from(loosened(r), s, i) == match read_from(r, s, i) {
            Ok(f) => Ok(loosened(f)),
            Err(e) => Err(e),
        },
    decreases s.len() - i,
{
    if 0 <= i < s.len() {
        if s[i] != '<' {
            lemma_read_loosely(r, s, i + 1);
        } else if let Some(end) = close_from(s, i, None) {
            lemma_close_from(s, i, None);
            lemma_span(s, end + 1, Class::Not('<'));
            if r.root is None && begins_declaration(s, i) {
                lemma_read_loosely(r, s, end + 1);
            } else if begins_tag(s, i) {
                lemma_tagged_loosely(r, s, i, end);
                if let Ok(next) = tagged(r, s, i, end) {
                    lemma_read_loosely(next, s, past_tag(s, i, end));
                }
            }
        }
    }
}

/// A form is read as any document is, but for text that stands where a
/// document holds none: a text that is not refused for such text gives the
/// same tree, or the same error, read either way.
pub proof fn law_forms_are_read_as_documents(s: Seq<char>)
    ensures
        xml_tree(s) != Err::<Tree, Seq<char>>(STRAY@) ==> form_tree(s) == xml_tree(s),
{
    if xml_tree(s) != Err::<Tree, Seq<char>>(STRAY@) {
        lemma_read_loosely(unread(false), s, 0);
        assert(loosened(unread(false)) == unread(true));
    }
}

/// Index of the `>` that closes the tag opening at `start`, skipping any
/// inside quoted attribute values.
fn close_of_tag(s: &Vec<char>, start: usize) -> (r: Option<usize>)
    ensures
        crate::text::as_int(r) == close_from(s@, start as int, None),
        r matches Some(e) ==> start <= e < s@.len(),
{
    let mut quote: Option<char> = None;
    let mut j: usize = start;
    let n = s.len();
    while j < n
        invariant
            n == s@.len(),
            start <= j,
            close_from(s@, start as int, None) == close_from(s@, j as int, quote),
        decreases n - j,
    {
        let c = s[j];
        match quote {
            Some(q) => {
                if c == q {
                    quote = None;
                }
            },
            None => {
                if c == '>' {
                    return Some(j);
                }
                if c == '"' || c == '\'' {
                    quote = Some(c);
                }
            },
        }
        j = j + 1;
    }
    None
}

pub(crate) fn unescaped(text: &Vec<char>) -> (r: String)
    ensures
        r@ == unescape(text@),
{
    proof {
        reveal_strlit("&lt;");
        reveal_strlit("&gt;");
        reveal_strlit("&quot;");
        reveal_strlit("&apos;");
        reveal_strlit("&amp;");
    }
    let a = replaced(text, "&lt;", "<");
    let b = replaced(&a, "&gt;", ">");
    let c = replaced(&b, "&quot;", "\"");
    let d = replaced(&c, "&apos;", "'");
    let e = replaced(&d, "&amp;", "&");
    string_of(&e)
}

/// A list of pairs by what it holds.
pub open spec fn pairs(v: Seq<(String, String)>) -> Seq<(Seq<char>, Seq<char>)> {
    Seq::new(v.len(), |i: int| (v[i].0@, v[i].1@))
}

fn parse_attributes(inner: &Vec<char>) -> (r: Vec<(String, String)>)
    ensures
        pairs(r@) == attributes_of(inner@),
{
    let mut out: Vec<(String, String)> = Vec::new();
    let first = end_of_run(inner, 0, Class::NotWhite);
    let mut rest = slice_chars(inner, first, inner.len());
    let ghost all = attributes_of(inner@);
    assert(rest@ == inner@.skip(first as int));
    assert(pairs(out@) + attributes_from(rest@) == all);
    loop
        invariant
            pairs(out@) + attributes_from(rest@) == all,
            all == attributes_of(inner@),
        decreases rest@.len(),
    {
        proof {
            lemma_attribute_bounds(rest@);
        }
        let eq = end_of_run(&rest, 0, Class::Not('='));
        if eq >= rest.len() {
            assert(pairs(out@) == all);
            return out;
        }
        let key = trimmed_chars(&slice_chars(&rest, 0, eq));
        assert(rest@.subrange(0, eq as int) == rest@.take(eq as int));
        let after = slice_chars(&rest, eq + 1, rest.len());
        assert(after@ == rest@.skip(eq + 1));
        let w = end_of_run(&after, 0, Class::White);
        assert(trim_start(after@).len() == after@.len() - w);
        if w >= after.len() {
            assert(pairs(out@) == all);
            return out;
        }
        let quote = after[w];
        assert(quote == trim_start(after@)[0]);
        if quote != '"' && quote != '\'' {
            assert(pairs(out@) == all);
            return out;
        }
        let start = end_of_run(&after, 0, Class::Not(quote)) + 1;
        let close = end_of_run(&after, start, Class::Not(quote));
        if close >= after.len() {
            assert(pairs(out@) == all);
            return out;
        }
        let ghost before = out@;
        let next = slice_chars(&after, close + 1, after.len());
        assert(next@ == after@.skip(close + 1));
        let ghost entry: Seq<(Seq<char>, Seq<char>)> = if key@.len() == 0 {
            Seq::empty()
        } else {
            seq![(key@, unescape(after@.subrange(start as int, close as int)))]
        };
        assert(attributes_from(rest@) == entry + attributes_from(next@));
        if key.len() > 0 {
            let value = unescaped(&slice_chars(&after, start, close));
            out.push((string_of(&key), value));
            assert(pairs(out@) == pairs(before) + entry);
        } else {
            assert(pairs(out@) == pairs(before) + entry);
        }
        assert(pairs(before) + (entry + attributes_from(next@)) == pairs(out@) + attributes_from(
            next@,
        ));
        rest = next;
    }
}

/// A document while it is read.
struct Reader {
    instance: Instance,
    open: Vec<NodeId>,
    root: Option<NodeId>,
    loose: bool,
}

impl View for Reader {
    type V = Reading;

    closed spec fn view(&self) -> Reading {
        Reading {
            tree: self.instance@,
            open: self.open@,
            root: self.root,
            loose: self.loose,
        }
    }
}

impl Reading {
    pub open spec fn wf(self) -> bool {
        &&& self.tree.wf()
        &&& self.tree.upright()
        &&& self.tree.all_in(self.open)
        &&& self.root matches Some(r) ==> self.tree.has(r)
        &&& self.tree.root is None
        &&& self.tree.order == Seq::<usize>::empty()
    }
}

impl Reader {
    fn close(&mut self, name: &str) -> (r: Result<(), String>)
        requires
            old(self)@.wf(),
        ensures
            final(self)@.wf(),
            match closed(old(self)@, name@) {
                Ok(next) => r is Ok && final(self)@ == next,
                Err(e) => r is Err && r->Err_0@ == e,
            },
    {
        if self.open.len() == 0 {
            return Err("closing tag without opening".to_string());
        }
        let ghost before = self@;
        assert(before.tree.has(before.open[before.open.len() - 1]));
        let id = self.open[self.open.len() - 1];
        let expected = past_last(trimmed(name).as_str(), ':');
        let actual = self.instance.node(id).name.clone();
        if actual != expected {
            return Err(
                cat5(
                    "closing </",
                    expected.as_str(),
                    "> does not match open <",
                    actual.as_str(),
                    ">",
                ),
            );
        }
        let _ = self.open.pop();
        proof {
            assert(self@.open == before.open.drop_last());
            assert forall|i: int| 0 <= i < self@.open.len() implies self@.tree.has(
                #[trigger] self@.open[i],
            ) by {
                assert(before.tree.has(before.open[i]));
            }
        }
        Ok(())
    }

    fn open(&mut self, inner: &Vec<char>, text: &Vec<char>) -> (r: Result<(), String>)
        requires
            old(self)@.wf(),
        ensures
            r is Ok ==> final(self)@.wf(),
            match opened(old(self)@, inner@, text@) {
                Ok(next) => r is Ok && final(self)@ == next,
                Err(e) => r is Err && r->Err_0@ == e,
            },
    {
        let ghost before = self@;
        let closes = inner.len() > 0 && inner[inner.len() - 1] == '/';
        let body = trimmed_end_of(inner, '/');
        let a = end_of_run(&body, 0, Class::White);
        let b = end_of_run(&body, a, Class::NotWhite);
        let name = past_last(slice(&body, a, b).as_str(), ':');
        let id = self.instance.create_element(name.as_str(), "");
        let ghost grown = self.instance@;
        let ghost base = before.tree.nodes.len() as int;
        proof {
            before.tree.lemma_grown_split(NodeKind::Element, name@, ""@);
            before.tree.lemma_grown_upright(NodeKind::Element, name@, ""@);
        }
        let list = parse_attributes(&body);
        let n = list.len();
        assert(pairs(list@).take(0) == Seq::<(Seq<char>, Seq<char>)>::empty());
        for i in 0..n
            invariant
                n == list@.len(),
                id.0 == base,
                base == before.tree.nodes.len(),
                self.open@ == before.open,
                self.root == before.root,
                self.loose == before.loose,
                self.instance@.wf(),
                self.instance@.upright(),
                self.instance@.has(id),
                self.instance@.split_at(base),
                self.instance@.extends(before.tree),
                self.instance@ == grown.with_attributes(id, pairs(list@).take(i as int)),
        {
            assert(pairs(list@).take(i + 1).drop_last() == pairs(list@).take(i as int));
            let ghost t = self.instance@;
            let key = past_last(list[i].0.as_str(), ':');
            self.instance.set_attribute(id, key.as_str(), list[i].1.as_str());
            proof {
                t.lemma_attributed_split(base, id, key@, list@[i as int].1@);
                t.lemma_attributed_upright(id, key@, list@[i as int].1@);
            }
        }
        assert(pairs(list@).take(n as int) == pairs(list@));
        let ghost bare = self.instance@;
        if self.open.len() == 0 {
            if self.root.is_some() {
                return Err("more than one root element".to_string());
            }
            self.root = Some(id);
        } else {
            let parent = self.open[self.open.len() - 1];
            proof {
                assert(before.tree.has(before.open[before.open.len() - 1]));
                bare.lemma_split_can_hold(base, parent, id);
                bare.lemma_split_unlinked(base);
                bare.lemma_appended_upright(parent, id);
            }
            self.instance.append_child(parent, id);
        }
        let ghost hung = self.instance@;
        proof {
            assert forall|i: int| 0 <= i < before.open.len() implies hung.has(
                #[trigger] before.open[i],
            ) by {
                assert(before.tree.has(before.open[i]));
            }
        }
        if closes {
            return Ok(());
        }
        if !blank(string_of(text).as_str()) {
            let value = unescaped(text);
            proof {
                hung.lemma_with_value_wf(id, value@);
                hung.lemma_with_value_upright(id, value@);
            }
            self.instance.node_mut(id).value = value;
        }
        self.open.push(id);
        Ok(())
    }
}

fn declares(s: &Vec<char>, i: usize) -> (r: bool)
    requires
        i < s@.len(),
    ensures
        r == begins_declaration(s@, i as int),
{
    s.len() - i > 5 && s[i] == '<' && s[i + 1] == '?' && s[i + 2] == 'x' && s[i + 3] == 'm' && s[i
        + 4] == 'l' && white(s[i + 5])
}

impl Instance {
    /// Build an instance from submission XML.
    ///
    /// Deliberately small: instances are machine-written documents, not
    /// arbitrary XML. Anything beyond elements, attributes and text is
    /// rejected rather than skipped, so an unexpected document is a failure
    /// and not a silently truncated one: text too, where it stands outside
    /// the root or behind a child. The declaration at its head is no part of
    /// what a document holds, nor is the white space between its tags.
    pub fn from_xml(xml: &str) -> (r: Result<Instance, String>)
        ensures
            seen(r) == xml_tree(xml@),
            r matches Ok(instance) ==> instance@.as_read(),
    {
        Self::read(xml, false)
    }

    /// Build a tree from the XML of a form, as from that of an instance. What
    /// a form shows beside its questions may be mixed of text and elements:
    /// text behind a child is passed over.
    pub(crate) fn from_form(xml: &str) -> (r: Result<Instance, String>)
        ensures
            seen(r) == form_tree(xml@),
            r matches Ok(instance) ==> instance@.as_read(),
    {
        Self::read(xml, true)
    }

    fn read(xml: &str, loose: bool) -> (r: Result<Instance, String>)
        ensures
            seen(r) == finished(read_from(unread(loose), xml@, 0)),
            r matches Ok(instance) ==> instance@.as_read(),
    {
        let s = chars_of(xml);
        let mut reader = Reader { instance: Instance::new(), open: Vec::new(), root: None, loose };
        let ghost all = read_from(unread(loose), s@, 0);
        assert(reader@ == unread(loose));
        let n = s.len();
        let mut i: usize = 0;
        while i < n
            invariant
                s@ == xml@,
                n == s@.len(),
                reader@.wf(),
                reader.loose == loose,
                all == read_from(reader@, s@, i as int),
                all == read_from(unread(loose), xml@, 0),
            decreases n - i,
        {
            if s[i] != '<' {
                if loose || white(s[i]) || (i == 0 && s[i] == '\u{feff}') {
                    i = i + 1;
                    continue;
                }
                return Err(STRAY.to_string());
            }
            let declaration = reader.root.is_none() && declares(&s, i);
            if !declaration && i + 1 < n && (s[i + 1] == '?' || s[i + 1] == '!') {
                return Err(UNEXPECTED.to_string());
            }
            let end = match close_of_tag(&s, i) {
                Some(end) => end,
                None => {
                    return Err("unterminated tag".to_string());
                },
            };
            if declaration {
                i = end + 1;
                continue;
            }
            proof {
                lemma_close_from(s@, i + 1, None);
                assert(close_from(s@, i as int, None) == close_from(s@, i + 1, None));
            }
            let inner = slice_chars(&s, i + 1, end);
            let ghost before = reader@;
            if inner.len() > 0 && inner[0] == '/' {
                let name = slice(&inner, 1, inner.len());
                assert(name@ == inner@.skip(1));
                match reader.close(name.as_str()) {
                    Ok(_) => {},
                    Err(e) => {
                        return Err(e);
                    },
                }
                i = end + 1;
            } else {
                let stop = end_of_run(&s, end + 1, Class::Not('<'));
                let text = slice_chars(&s, end + 1, stop);
                match reader.open(&inner, &text) {
                    Ok(_) => {},
                    Err(e) => {
                        return Err(e);
                    },
                }
                i = if inner.len() > 0 && inner[inner.len() - 1] == '/' {
                    end + 1
                } else {
                    stop
                };
            }
        }
        if reader.open.len() > 0 {
            return Err("unclosed elements".to_string());
        }
        let root = match reader.root {
            Some(root) => root,
            None => {
                return Err("no root element".to_string());
            },
        };
        let mut instance = reader.instance;
        instance.set_root(root);
        proof {
            law_documents_are_laid_out(xml@, loose, instance@);
        }
        Ok(instance)
    }
}

} // verus!
