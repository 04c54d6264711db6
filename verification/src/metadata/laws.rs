//! When an interview was held, by what its submission says.

use crate::metadata::{
    day_anywhere, day_at_top, first_bytes, starts_with_tag, stated, time_of, width,
};
use crate::session::answers::first_named;
use crate::text::laws::{all_white, lemma_span_is};
use crate::text::{in_class, is_blank, is_white, trim_start, Class};
use crate::tree::{NodeId, Tree};
use vstd::prelude::*;

verus! {

/// Whether the first node of a name in a list holds a text that says
/// something.
pub open spec fn tells(t: Tree, s: Seq<NodeId>, name: Seq<char>, text: Seq<char>) -> bool {
    !is_blank(text) && exists|k: int|
        0 <= k < s.len() && t.name(#[trigger] s[k]) == name && t.string_value(s[k]) == text
            && forall|j: int| 0 <= j < k ==> t.name(#[trigger] s[j]) != name
}

proof fn lemma_first_named(t: Tree, s: Seq<NodeId>, name: Seq<char>, i: int)
    requires
        0 <= i <= s.len(),
    ensures
        match first_named(t, s, name, i) {
            Some(n) => exists|k: int|
                i <= k < s.len() && t.name(#[trigger] s[k]) == name && s[k] == n && forall|j: int|
                    i <= j < k ==> t.name(#[trigger] s[j]) != name,
            None => forall|j: int| i <= j < s.len() ==> t.name(#[trigger] s[j]) != name,
        },
    decreases s.len() - i,
{
    if i < s.len() {
        lemma_first_named(t, s, name, i + 1);
        if t.name(s[i]) == name {
            assert(t.name(s[i]) == name && s[i] == first_named(t, s, name, i)->0);
        } else if let Some(n) = first_named(t, s, name, i + 1) {
            let k = choose|k: int|
                i + 1 <= k < s.len() && t.name(#[trigger] s[k]) == name && s[k] == n
                    && forall|j: int| i + 1 <= j < k ==> t.name(#[trigger] s[j]) != name;
            assert(t.name(s[k]) == name && s[k] == n);
        }
    }
}

proof fn lemma_stated(t: Tree, s: Seq<NodeId>, name: Seq<char>, text: Seq<char>)
    ensures
        stated(t, s, name) == Some(text) <==> tells(t, s, name, text),
{
    lemma_first_named(t, s, name, 0);
    if tells(t, s, name, text) {
        let k = choose|k: int|
            0 <= k < s.len() && t.name(#[trigger] s[k]) == name && t.string_value(s[k]) == text
                && forall|j: int| 0 <= j < k ==> t.name(#[trigger] s[j]) != name;
        match first_named(t, s, name, 0) {
            Some(n) => {
                let m = choose|m: int|
                    0 <= m < s.len() && t.name(#[trigger] s[m]) == name && s[m] == n
                        && forall|j: int| 0 <= j < m ==> t.name(#[trigger] s[j]) != name;
                if m < k {
                    assert(t.name(s[m]) != name);
                } else if k < m {
                    assert(t.name(s[k]) != name);
                }
            },
            None => {
                assert(t.name(s[k]) != name);
            },
        }
    }
}

/// Whether no node of a name says anything first.
pub open spec fn tells_nothing(t: Tree, s: Seq<NodeId>, name: Seq<char>) -> bool {
    forall|text: Seq<char>| !(#[trigger] tells(t, s, name, text))
}

proof fn lemma_unstated(t: Tree, s: Seq<NodeId>, name: Seq<char>)
    ensures
        stated(t, s, name) is None <==> tells_nothing(t, s, name),
{
    match stated(t, s, name) {
        Some(text) => {
            lemma_stated(t, s, name, text);
            assert(tells(t, s, name, text));
        },
        None => {
            assert forall|text: Seq<char>| !(#[trigger] tells(t, s, name, text)) by {
                lemma_stated(t, s, name, text);
            }
        },
    }
}

/// The time of an interview is when it ended; where that is not said, when
/// it started; and where neither is said, the beginning of time.
pub proof fn law_interviews_are_timed(t: Tree, s: Seq<NodeId>, text: Seq<char>)
    ensures
        tells(t, s, "end"@, text) ==> time_of(t, s) == text,
        tells_nothing(t, s, "end"@) && tells(t, s, "start"@, text) ==> time_of(t, s) == text,
        tells_nothing(t, s, "end"@) && tells_nothing(t, s, "start"@) ==> time_of(t, s)
            == "1970-01-01T00:00:00.000Z"@,
{
    lemma_stated(t, s, "end"@, text);
    lemma_stated(t, s, "start"@, text);
    lemma_unstated(t, s, "end"@);
    lemma_unstated(t, s, "start"@);
}

proof fn lemma_first_bytes(s: Seq<char>, i: int, room: int)
    requires
        0 <= i <= s.len(),
        room >= 0,
        forall|j: int| 0 <= j < s.len() ==> #[trigger] s[j] <= '\u{7f}',
    ensures
        first_bytes(s, i, room) == Some(
            s.subrange(
                i,
                if i + room < s.len() {
                    i + room
                } else {
                    s.len() as int
                },
            ),
        ),
    decreases s.len() - i,
{
    if i < s.len() && room > 0 {
        assert(s[i] <= '\u{7f}');
        assert(width(s[i]) == 1);
        lemma_first_bytes(s, i + 1, room - 1);
        let end = if i + room < s.len() {
            i + room
        } else {
            s.len() as int
        };
        assert(seq![s[i]] + s.subrange(i + 1, end) =~= s.subrange(i, end));
    } else {
        let end = if i + room < s.len() {
            i + room
        } else {
            s.len() as int
        };
        assert(s.subrange(i, end) =~= Seq::<char>::empty());
    }
}

/// The day of an interview is the one it states; where it states none, the
/// day it ended, which the time of its end begins with; and where neither is
/// said, the first day.
pub proof fn law_interviews_are_dated(t: Tree, s: Seq<NodeId>, text: Seq<char>)
    ensures
        tells(t, s, "today"@, text) ==> day_anywhere(t, s) == Some(text) && day_at_top(t, s)
            == text,
        tells_nothing(t, s, "today"@) && tells(t, s, "end"@, text) && text.len() >= 10 && (forall|
            j: int,
        |
            0 <= j < text.len() ==> #[trigger] text[j] <= '\u{7f}') ==> day_anywhere(t, s) == Some(
            text.take(10),
        ) && day_at_top(t, s) == text.take(10),
        tells_nothing(t, s, "today"@) && tells_nothing(t, s, "end"@) ==> day_anywhere(t, s)
            == Some("1970-01-01"@) && day_at_top(t, s) == "1970-01-01"@,
{
    lemma_stated(t, s, "today"@, text);
    lemma_stated(t, s, "end"@, text);
    lemma_unstated(t, s, "today"@);
    lemma_unstated(t, s, "end"@);
    if forall|j: int| 0 <= j < text.len() ==> #[trigger] text[j] <= '\u{7f}' {
        lemma_first_bytes(text, 0, 10);
        if text.len() >= 10 {
            assert(text.subrange(0, 10) =~= text.take(10));
        }
        if text.len() == 10 {
            assert(text.take(10) =~= text);
        }
    }
}

/// A text is a document where a tag begins it, whatever white space stands
/// before that.
pub proof fn law_documents_begin_with_a_tag(gap: Seq<char>, rest: Seq<char>)
    requires
        all_white(gap),
    ensures
        starts_with_tag(gap + seq!['<'] + rest),
        rest.len() > 0 && !is_white(rest[0]) && rest[0] != '<' ==> !starts_with_tag(gap + rest),
        !starts_with_tag(gap),
{
    let a = gap + seq!['<'] + rest;
    let n = gap.len() as int;
    assert forall|x: int| 0 <= x < n implies in_class(Class::White, #[trigger] a[x]) by {
        assert(a[x] == gap[x]);
        assert(is_white(gap[x]));
    }
    assert(a[n] == '<');
    lemma_span_is(a, 0, n, Class::White);
    assert(trim_start(a)[0] == '<');
    let b = gap + rest;
    if rest.len() > 0 && !is_white(rest[0]) {
        assert forall|x: int| 0 <= x < n implies in_class(Class::White, #[trigger] b[x]) by {
            assert(b[x] == gap[x]);
            assert(is_white(gap[x]));
        }
        assert(b[n] == rest[0]);
        lemma_span_is(b, 0, n, Class::White);
        assert(trim_start(b)[0] == rest[0]);
    }
    assert forall|x: int| 0 <= x < n implies in_class(Class::White, #[trigger] gap[x]) by {
        assert(is_white(gap[x]));
    }
    lemma_span_is(gap, 0, n, Class::White);
}

} // verus!
