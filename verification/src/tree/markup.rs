//! How tags, attributes and references to characters are read.

use crate::text::laws::{all_white, law_trim_takes_off_white_space, lemma_span_is};
use crate::text::{begins_with, in_class, is_white, replace_all, span, trim_start, Class};
use crate::tree::xml::{attributes_from, close_from, unescape};
use vstd::prelude::*;

verus! {

// ---------------------------------------------------------------------------
// Tags
// ---------------------------------------------------------------------------

/// Whether a text neither ends a tag nor begins a quotation.
pub open spec fn is_bare(s: Seq<char>) -> bool {
    forall|i: int| 0 <= i < s.len() ==> #[trigger] s[i] != '>' && s[i] != '"' && s[i] != '\''
}

proof fn lemma_bare(s: Seq<char>, j: int, k: int)
    requires
        0 <= j <= k <= s.len(),
        forall|i: int| j <= i < k ==> #[trigger] s[i] != '>' && s[i] != '"' && s[i] != '\'',
    ensures
        close_from(s, j, None) == close_from(s, k, None),
    decreases k - j,
{
    if j < k {
        assert(s[j] != '>');
        lemma_bare(s, j + 1, k);
    }
}

proof fn lemma_quotation(s: Seq<char>, j: int, k: int, q: char)
    requires
        0 <= j <= k < s.len(),
        forall|i: int| j <= i < k ==> #[trigger] s[i] != q,
        s[k] == q,
    ensures
        close_from(s, j, Some(q)) == close_from(s, k + 1, None),
    decreases k - j,
{
    if j < k {
        assert(s[j] != q);
        lemma_quotation(s, j + 1, k, q);
    }
}

/// A tag ends at the first angle bracket that is not in a quotation: one
/// inside a quotation does not end it.
pub proof fn law_quoted_brackets_end_no_tag(
    a: Seq<char>,
    q: char,
    x: Seq<char>,
    b: Seq<char>,
    rest: Seq<char>,
)
    requires
        is_bare(a),
        is_bare(b),
        q == '"' || q == '\'',
        !x.contains(q),
    ensures
        close_from(a + seq![q] + x + seq![q] + b + seq!['>'] + rest, 0, None) == Some(
            (a.len() + x.len() + b.len() + 2) as int,
        ),
        close_from(a + seq!['>'] + rest, 0, None) == Some(a.len() as int),
{
    let s = a + seq![q] + x + seq![q] + b + seq!['>'] + rest;
    let i = a.len() as int;
    let j = i + 1 + x.len();
    let k = j + 1 + b.len();
    assert forall|y: int| 0 <= y < i implies #[trigger] s[y] != '>' && s[y] != '"' && s[y]
        != '\'' by {
        assert(s[y] == a[y]);
    }
    lemma_bare(s, 0, i);
    assert(s[i] == q);
    assert forall|y: int| i + 1 <= y < j implies #[trigger] s[y] != q by {
        assert(s[y] == x[y - i - 1]);
        assert(x.contains(x[y - i - 1]));
    }
    assert(s[j] == q);
    lemma_quotation(s, i + 1, j, q);
    assert forall|y: int| j + 1 <= y < k implies #[trigger] s[y] != '>' && s[y] != '"' && s[y]
        != '\'' by {
        assert(s[y] == b[y - j - 1]);
    }
    lemma_bare(s, j + 1, k);
    assert(s[k] == '>');
    let r = a + seq!['>'] + rest;
    assert forall|y: int| 0 <= y < i implies #[trigger] r[y] != '>' && r[y] != '"' && r[y]
        != '\'' by {
        assert(r[y] == a[y]);
    }
    lemma_bare(r, 0, i);
    assert(r[i] == '>');
}

// ---------------------------------------------------------------------------
// Attributes
// ---------------------------------------------------------------------------

proof fn lemma_key(gap: Seq<char>, name: Seq<char>, rest: Seq<char>)
    requires
        all_white(gap),
        !name.contains('='),
    ensures
        span(gap + name + seq!['='] + rest, 0, Class::Not('=')) == gap.len() + name.len(),
{
    let s = gap + name + seq!['='] + rest;
    let n = (gap.len() + name.len()) as int;
    assert forall|x: int| 0 <= x < n implies in_class(Class::Not('='), #[trigger] s[x]) by {
        if x < gap.len() {
            assert(s[x] == gap[x]);
            assert(is_white(gap[x]));
        } else {
            assert(s[x] == name[x - gap.len()]);
            assert(name.contains(name[x - gap.len()]));
        }
    }
    assert(s[n] == '=');
    lemma_span_is(s, 0, n, Class::Not('='));
}

proof fn lemma_quoted_value(gap: Seq<char>, q: char, value: Seq<char>, rest: Seq<char>)
    requires
        all_white(gap),
        q == '"' || q == '\'',
        !value.contains(q),
    ensures
        ({
            let after = gap + seq![q] + value + seq![q] + rest;
            let start = gap.len() as int + 1;
            &&& trim_start(after).len() > 0
            &&& trim_start(after)[0] == q
            &&& span(after, 0, Class::Not(q)) == start - 1
            &&& span(after, start, Class::Not(q)) == start + value.len()
            &&& after.subrange(start, start + value.len()) == value
            &&& after.skip(start + value.len() + 1) == rest
        }),
{
    let after = gap + seq![q] + value + seq![q] + rest;
    let g = gap.len() as int;
    let close = g + 1 + value.len();
    assert forall|x: int| 0 <= x < g implies in_class(Class::White, #[trigger] after[x]) by {
        assert(after[x] == gap[x]);
        assert(is_white(gap[x]));
    }
    assert(after[g] == q);
    lemma_span_is(after, 0, g, Class::White);
    assert forall|x: int| 0 <= x < g implies in_class(Class::Not(q), #[trigger] after[x]) by {
        assert(after[x] == gap[x]);
        assert(is_white(gap[x]));
    }
    lemma_span_is(after, 0, g, Class::Not(q));
    assert forall|x: int| g + 1 <= x < close implies in_class(Class::Not(q), #[trigger] after[x]) by {
        assert(after[x] == value[x - g - 1]);
        assert(value.contains(value[x - g - 1]));
    }
    assert(after[close] == q);
    lemma_span_is(after, g + 1, close, Class::Not(q));
    assert(after.subrange(g + 1, close) =~= value);
    assert(after.skip(close + 1) =~= rest);
}

/// The attributes of a tag are read one by one: a name, an equals sign and a
/// value in quotation marks of either kind, with white space around them.
pub proof fn law_attributes_are_read_one_by_one(
    gap: Seq<char>,
    name: Seq<char>,
    space: Seq<char>,
    q: char,
    value: Seq<char>,
    rest: Seq<char>,
)
    requires
        all_white(gap),
        all_white(space),
        name.len() > 0,
        !name.contains('='),
        !is_white(name[0]),
        !is_white(name.last()),
        q == '"' || q == '\'',
        !value.contains(q),
    ensures
        attributes_from(gap + name + seq!['='] + (space + seq![q] + value + seq![q] + rest)) == seq![
            (name, unescape(value)),
        ] + attributes_from(rest),
{
    let after = space + seq![q] + value + seq![q] + rest;
    let s = gap + name + seq!['='] + after;
    let none = Seq::<char>::empty();
    lemma_key(gap, name, after);
    lemma_quoted_value(space, q, value, rest);
    law_trim_takes_off_white_space(gap, name, none);
    let n = (gap.len() + name.len()) as int;
    assert(s.take(n) =~= gap + name + none);
    assert(s.skip(n + 1) =~= after);
    assert(after.len() > space.len() + 1 + value.len());
}

// ---------------------------------------------------------------------------
// References to characters
// ---------------------------------------------------------------------------

proof fn lemma_unreplaced(s: Seq<char>, from: Seq<char>, to: Seq<char>)
    requires
        from.len() > 0,
        from[0] == '&',
        !s.contains('&'),
    ensures
        replace_all(s, from, to) == s,
    decreases s.len(),
{
    if s.len() > 0 {
        assert(s.contains(s[0]));
        let rest = s.skip(1);
        if rest.contains('&') {
            let k = choose|k: int| 0 <= k < rest.len() && rest[k] == '&';
            assert(s[k + 1] == '&');
        }
        if begins_with(s, from) {
            assert(s.take(from.len() as int)[0] == s[0]);
        }
        lemma_unreplaced(rest, from, to);
        assert(seq![s[0]] + rest =~= s);
    }
}

/// What is put for a reference that stands after a text without one.
proof fn lemma_after_text(a: Seq<char>, rest: Seq<char>, from: Seq<char>, to: Seq<char>)
    requires
        from.len() > 0,
        from[0] == '&',
        !a.contains('&'),
    ensures
        replace_all(a + rest, from, to) == a + replace_all(rest, from, to),
    decreases a.len(),
{
    if a.len() == 0 {
        assert(a + rest =~= rest);
        assert(a + replace_all(rest, from, to) =~= replace_all(rest, from, to));
    } else {
        let s = a + rest;
        let b = a.skip(1);
        assert(a.contains(a[0]));
        assert(s[0] == a[0]);
        if b.contains('&') {
            let k = choose|k: int| 0 <= k < b.len() && b[k] == '&';
            assert(a[k + 1] == '&');
        }
        if begins_with(s, from) {
            assert(s.take(from.len() as int)[0] == s[0]);
        }
        assert(s.skip(1) =~= b + rest);
        lemma_after_text(b, rest, from, to);
        assert(seq![a[0]] + (b + replace_all(rest, from, to)) =~= a + replace_all(rest, from, to));
    }
}

/// A reference is replaced where it is the one that is looked for.
proof fn lemma_met(b: Seq<char>, from: Seq<char>, to: Seq<char>)
    requires
        from.len() > 0,
        from[0] == '&',
        !b.contains('&'),
    ensures
        replace_all(from + b, from, to) == to + b,
{
    let s = from + b;
    assert(s.take(from.len() as int) =~= from);
    assert(s.skip(from.len() as int) =~= b);
    lemma_unreplaced(b, from, to);
}

/// A reference stays where it is another one.
proof fn lemma_passed_by(
    r: Seq<char>,
    b: Seq<char>,
    from: Seq<char>,
    to: Seq<char>,
    d: int,
)
    requires
        r.len() > 0,
        !r.skip(1).contains('&'),
        from.len() > 0,
        from[0] == '&',
        0 <= d < r.len(),
        d < from.len(),
        r[d] != from[d],
        !b.contains('&'),
    ensures
        replace_all(r + b, from, to) == r + b,
{
    let s = r + b;
    if begins_with(s, from) {
        assert(s.take(from.len() as int)[d] == from[d]);
        assert(s[d] == r[d]);
    }
    let rest = s.skip(1);
    assert(rest =~= r.skip(1) + b);
    if rest.contains('&') {
        crate::parser::parts::lemma_in_sum(r.skip(1), b, '&');
    }
    lemma_unreplaced(rest, from, to);
    assert(seq![s[0]] + rest =~= s);
}

/// What one pass makes of a reference between texts without any.
proof fn lemma_pass(
    a: Seq<char>,
    r: Seq<char>,
    b: Seq<char>,
    from: Seq<char>,
    to: Seq<char>,
    d: int,
)
    requires
        !a.contains('&'),
        !b.contains('&'),
        r.len() > 0,
        !r.skip(1).contains('&'),
        from.len() > 0,
        from[0] == '&',
        r == from || (0 <= d < r.len() && d < from.len() && r[d] != from[d]),
    ensures
        replace_all(a + r + b, from, to) == if r == from {
            a + to + b
        } else {
            a + r + b
        },
{
    assert(a + r + b =~= a + (r + b));
    lemma_after_text(a, r + b, from, to);
    if r == from {
        lemma_met(b, from, to);
        assert(a + (to + b) =~= a + to + b);
    } else {
        lemma_passed_by(r, b, from, to, d);
    }
}

proof fn lemma_references()
    ensures
        "&lt;"@ == seq!['&', 'l', 't', ';'],
        "&gt;"@ == seq!['&', 'g', 't', ';'],
        "&quot;"@ == seq!['&', 'q', 'u', 'o', 't', ';'],
        "&apos;"@ == seq!['&', 'a', 'p', 'o', 's', ';'],
        "&amp;"@ == seq!['&', 'a', 'm', 'p', ';'],
        "<"@ == seq!['<'],
        ">"@ == seq!['>'],
        "\""@ == seq!['"'],
        "'"@ == seq!['\''],
        "&"@ == seq!['&'],
{
    reveal_strlit("&lt;");
    reveal_strlit("&gt;");
    reveal_strlit("&quot;");
    reveal_strlit("&apos;");
    reveal_strlit("&amp;");
    reveal_strlit("<");
    reveal_strlit(">");
    reveal_strlit("\"");
    reveal_strlit("'");
    reveal_strlit("&");
    assert("&lt;"@ =~= seq!['&', 'l', 't', ';']);
    assert("&gt;"@ =~= seq!['&', 'g', 't', ';']);
    assert("&quot;"@ =~= seq!['&', 'q', 'u', 'o', 't', ';']);
    assert("&apos;"@ =~= seq!['&', 'a', 'p', 'o', 's', ';']);
    assert("&amp;"@ =~= seq!['&', 'a', 'm', 'p', ';']);
    assert("<"@ =~= seq!['<']);
    assert(">"@ =~= seq!['>']);
    assert("\""@ =~= seq!['"']);
    assert("'"@ =~= seq!['\'']);
    assert("&"@ =~= seq!['&']);
}

/// Whether a text is a reference, by its letters, to a character.
pub open spec fn refers_to(r: Seq<char>, c: char) -> bool {
    ||| r == "&lt;"@ && c == '<'
    ||| r == "&gt;"@ && c == '>'
    ||| r == "&quot;"@ && c == '"'
    ||| r == "&apos;"@ && c == '\''
    ||| r == "&amp;"@ && c == '&'
}

proof fn lemma_reference_pass(
    a: Seq<char>,
    r: Seq<char>,
    c: char,
    b: Seq<char>,
    from: Seq<char>,
    to: char,
)
    requires
        !a.contains('&'),
        !b.contains('&'),
        refers_to(r, c),
        refers_to(from, to),
    ensures
        replace_all(a + r + b, from, seq![to]) == if c == to {
            a + seq![to] + b
        } else {
            a + r + b
        },
{
    lemma_references();
    let d: int = if r.len() > 1 && from.len() > 1 && r[1] != from[1] {
        1
    } else {
        2
    };
    let t = r.skip(1);
    assert forall|k: int| 0 <= k < t.len() implies #[trigger] t[k] != '&' by {
        assert(t[k] == r[k + 1]);
    }
    assert(!t.contains('&'));
    if c == to {
        assert(r == from);
    } else {
        assert(r[d] != from[d]);
    }
    lemma_pass(a, r, b, from, seq![to], d);
}

/// A reference to a character by name is read as the character, and what
/// stands around it stays.
pub proof fn law_references_are_read(a: Seq<char>, r: Seq<char>, c: char, b: Seq<char>)
    requires
        !a.contains('&'),
        !b.contains('&'),
        refers_to(r, c),
    ensures
        unescape(a + r + b) == a + seq![c] + b,
        unescape(a) == a,
{
    lemma_references();
    lemma_unreplaced(a, "&lt;"@, "<"@);
    lemma_unreplaced(a, "&gt;"@, ">"@);
    lemma_unreplaced(a, "&quot;"@, "\""@);
    lemma_unreplaced(a, "&apos;"@, "'"@);
    lemma_unreplaced(a, "&amp;"@, "&"@);
    lemma_reference_pass(a, r, c, b, "&lt;"@, '<');
    lemma_reference_pass(a, r, c, b, "&gt;"@, '>');
    lemma_reference_pass(a, r, c, b, "&quot;"@, '"');
    lemma_reference_pass(a, r, c, b, "&apos;"@, '\'');
    lemma_reference_pass(a, r, c, b, "&amp;"@, '&');
    let done = a + seq![c] + b;
    if c != '&' {
        assert(!done.contains('&')) by {
            if done.contains('&') {
                let k = choose|k: int| 0 <= k < done.len() && done[k] == '&';
                if k < a.len() {
                    assert(a[k] == '&');
                } else if k > a.len() {
                    assert(b[k - a.len() - 1] == '&');
                }
            }
        }
        lemma_unreplaced(done, "&gt;"@, ">"@);
        lemma_unreplaced(done, "&quot;"@, "\""@);
        lemma_unreplaced(done, "&apos;"@, "'"@);
        lemma_unreplaced(done, "&amp;"@, "&"@);
    }
}

} // verus!
