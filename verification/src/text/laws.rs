//! What holds of texts, whatever they say.

use crate::text::{
    after_last, begins_with, find, find_from, finishes_with, in_class, is_blank, is_white, join,
    lemma_join_first, lemma_span, lemma_span_back, occurs_at, span, span_back, split_on, trim,
    trim_start, words, Class,
};
use vstd::prelude::*;

verus! {

/// Whether a text is nothing but white space.
pub open spec fn all_white(s: Seq<char>) -> bool {
    forall|i: int| 0 <= i < s.len() ==> is_white(#[trigger] s[i])
}

/// Whether there is no white space in a text.
pub open spec fn none_white(s: Seq<char>) -> bool {
    forall|i: int| 0 <= i < s.len() ==> !is_white(#[trigger] s[i])
}

/// A space, a tab and the ends of lines are white space; what ASCII prints
/// is not.
pub proof fn law_white_space(c: char)
    ensures
        c == ' ' || c == '\t' || c == '\n' || c == '\r' ==> is_white(c),
        '!' <= c <= '~' ==> !is_white(c),
{
}

// ---------------------------------------------------------------------------
// Runs
// ---------------------------------------------------------------------------

pub proof fn lemma_span_is(s: Seq<char>, i: int, j: int, k: Class)
    requires
        0 <= i <= j <= s.len(),
        forall|x: int| i <= x < j ==> in_class(k, #[trigger] s[x]),
        j < s.len() ==> !in_class(k, s[j]),
    ensures
        span(s, i, k) == j,
    decreases j - i,
{
    if i < j {
        assert(in_class(k, s[i]));
        lemma_span_is(s, i + 1, j, k);
    }
}

proof fn lemma_span_back_is(s: Seq<char>, i: int, j: int, k: Class)
    requires
        0 <= i <= j <= s.len(),
        forall|x: int| i <= x < j ==> in_class(k, #[trigger] s[x]),
        i > 0 ==> !in_class(k, s[i - 1]),
    ensures
        span_back(s, j, k) == i,
    decreases j - i,
{
    if i < j {
        assert(in_class(k, s[j - 1]));
        lemma_span_back_is(s, i, j - 1, k);
    }
}

/// What is trimmed of a text is the white space around it, all of it and
/// nothing else.
pub proof fn law_trim_takes_off_white_space(a: Seq<char>, core: Seq<char>, b: Seq<char>)
    requires
        all_white(a),
        all_white(b),
        core.len() > 0 ==> !is_white(core[0]) && !is_white(core.last()),
    ensures
        trim(a + core + b) == core,
{
    let s = a + core + b;
    if core.len() == 0 {
        assert forall|x: int| 0 <= x < s.len() implies is_white(#[trigger] s[x]) by {
            if x < a.len() {
                assert(s[x] == a[x]);
            } else {
                assert(s[x] == b[x - a.len()]);
            }
        }
        lemma_span_is(s, 0, s.len() as int, Class::White);
        assert(trim_start(s) =~= Seq::<char>::empty());
        assert(trim(s) =~= core);
    } else {
        assert forall|x: int| 0 <= x < a.len() implies is_white(#[trigger] s[x]) by {
            assert(s[x] == a[x]);
        }
        assert(s[a.len() as int] == core[0]);
        lemma_span_is(s, 0, a.len() as int, Class::White);
        let t = trim_start(s);
        assert(t =~= core + b);
        assert forall|x: int| core.len() <= x < t.len() implies is_white(#[trigger] t[x]) by {
            assert(t[x] == b[x - core.len()]);
        }
        assert(t[core.len() - 1] == core.last());
        lemma_span_back_is(t, core.len() as int, t.len() as int, Class::White);
        assert(trim(s) =~= core);
    }
}

/// A text is blank where there is nothing in it but white space.
pub proof fn law_blank_is_all_white(s: Seq<char>)
    ensures
        is_blank(s) <==> all_white(s),
{
    if all_white(s) {
        law_trim_takes_off_white_space(s, Seq::empty(), Seq::empty());
        assert(s + Seq::<char>::empty() + Seq::<char>::empty() =~= s);
    } else {
        let a = span(s, 0, Class::White);
        lemma_span(s, 0, Class::White);
        if a >= s.len() {
            assert(all_white(s)) by {
                assert forall|i: int| 0 <= i < s.len() implies is_white(#[trigger] s[i]) by {
                    assert(in_class(Class::White, s[i]));
                }
            }
        }
        let t = trim_start(s);
        let b = span_back(t, t.len() as int, Class::White);
        lemma_span_back(t, t.len() as int, Class::White);
        if b == 0 {
            assert(in_class(Class::White, t[0]));
            assert(t[0] == s[a]);
        }
    }
}

/// The words of a text are its runs without white space: white space before
/// them counts for nothing, and a run that white space or the end follows is
/// the next word.
pub proof fn law_words_are_runs(gap: Seq<char>, word: Seq<char>, rest: Seq<char>)
    requires
        all_white(gap),
        word.len() > 0,
        none_white(word),
        rest.len() > 0 ==> is_white(rest[0]),
    ensures
        words(gap) == Seq::<Seq<char>>::empty(),
        words(gap + word + rest) == seq![word] + words(rest),
{
    lemma_span_is(gap, 0, gap.len() as int, Class::White);
    let s = gap + word + rest;
    let a = gap.len() as int;
    let b = a + word.len();
    assert forall|x: int| 0 <= x < a implies in_class(Class::White, #[trigger] s[x]) by {
        assert(s[x] == gap[x]);
    }
    assert(s[a] == word[0]);
    lemma_span_is(s, 0, a, Class::White);
    assert forall|x: int| a <= x < b implies in_class(Class::NotWhite, #[trigger] s[x]) by {
        assert(s[x] == word[x - a]);
    }
    if b < s.len() {
        assert(s[b] == rest[0]);
    }
    lemma_span_is(s, a, b, Class::NotWhite);
    assert(s.subrange(a, b) =~= word);
    assert(s.skip(b) =~= rest);
}

// ---------------------------------------------------------------------------
// Pieces
// ---------------------------------------------------------------------------

/// What was put together around a character comes apart at it again, where
/// none of the pieces holds that character.
pub proof fn law_split_undoes_join(parts: Seq<Seq<char>>, c: char)
    requires
        parts.len() > 0,
        forall|i: int| 0 <= i < parts.len() ==> !(#[trigger] parts[i]).contains(c),
    ensures
        split_on(join(parts, seq![c]), c) == parts,
    decreases parts.len(),
{
    let first = parts[0];
    let s = join(parts, seq![c]);
    assert(!parts[0].contains(c));
    assert forall|x: int| 0 <= x < first.len() implies in_class(Class::Not(c), #[trigger] first[x]) by {
        assert(first.contains(first[x]));
    }
    if parts.len() == 1 {
        lemma_span_is(s, 0, s.len() as int, Class::Not(c));
        assert(split_on(s, c) =~= parts);
    } else {
        let rest = parts.skip(1);
        assert(parts =~= seq![first] + rest);
        lemma_join_first(first, rest, seq![c]);
        let tail = join(rest, seq![c]);
        assert(s =~= first + seq![c] + tail);
        assert forall|i: int| 0 <= i < rest.len() implies !(#[trigger] rest[i]).contains(c) by {
            assert(rest[i] == parts[i + 1]);
        }
        law_split_undoes_join(rest, c);
        let a = first.len() as int;
        assert(s[a] == c);
        assert forall|x: int| 0 <= x < a implies in_class(Class::Not(c), #[trigger] s[x]) by {
            assert(s[x] == first[x]);
        }
        lemma_span_is(s, 0, a, Class::Not(c));
        assert(s.take(a) =~= first);
        assert(s.skip(a + 1) =~= tail);
        assert(split_on(s, c) =~= parts);
    }
}

/// What follows the last of a character is what stands behind it, where that
/// holds it no more; a text without it is left whole.
pub proof fn law_after_the_last(a: Seq<char>, c: char, b: Seq<char>)
    requires
        !b.contains(c),
    ensures
        after_last(a + seq![c] + b, c) == b,
        after_last(b, c) == b,
{
    let s = a + seq![c] + b;
    let i = a.len() as int + 1;
    assert(s[i - 1] == c);
    assert forall|x: int| i <= x < s.len() implies in_class(Class::Not(c), #[trigger] s[x]) by {
        assert(s[x] == b[x - i]);
        assert(b.contains(b[x - i]));
    }
    lemma_span_back_is(s, i, s.len() as int, Class::Not(c));
    assert(s.skip(i) =~= b);
    assert forall|x: int| 0 <= x < b.len() implies in_class(Class::Not(c), #[trigger] b[x]) by {
        assert(b.contains(b[x]));
    }
    lemma_span_back_is(b, 0, b.len() as int, Class::Not(c));
    assert(b.skip(0) =~= b);
}

// ---------------------------------------------------------------------------
// Searching
// ---------------------------------------------------------------------------

proof fn lemma_find_from(s: Seq<char>, part: Seq<char>, i: int)
    requires
        0 <= i <= s.len() + 1,
    ensures
        match find_from(s, part, i) {
            Some(k) => i <= k && occurs_at(s, part, k) && forall|j: int|
                i <= j < k ==> !#[trigger] occurs_at(s, part, j),
            None => forall|j: int| i <= j ==> !#[trigger] occurs_at(s, part, j),
        },
    decreases s.len() - i + 1,
{
    if i <= s.len() && !occurs_at(s, part, i) {
        lemma_find_from(s, part, i + 1);
    }
}

/// A part is found where a text is something, that part, and something more;
/// and of all such places the first.
pub proof fn law_found_first(s: Seq<char>, part: Seq<char>)
    ensures
        match find(s, part) {
            Some(i) => {
                &&& 0 <= i
                &&& i + part.len() <= s.len()
                &&& s == s.take(i) + part + s.skip(i + part.len())
                &&& forall|a: Seq<char>, b: Seq<char>|
                    s == #[trigger] (a + part + b) ==> i <= a.len()
            },
            None => forall|a: Seq<char>, b: Seq<char>| s != #[trigger] (a + part + b),
        },
{
    lemma_find_from(s, part, 0);
    assert forall|a: Seq<char>, b: Seq<char>| s == #[trigger] (a + part + b) implies occurs_at(
        s,
        part,
        a.len() as int,
    ) by {
        assert(s.subrange(a.len() as int, (a.len() + part.len()) as int) =~= part);
    }
    if let Some(i) = find(s, part) {
        assert(s =~= s.take(i) + part + s.skip(i + part.len()));
    }
}

/// A text begins with what it is followed by something more, and ends with
/// what something comes before.
pub proof fn law_beginnings_and_ends(s: Seq<char>, part: Seq<char>, other: Seq<char>)
    ensures
        begins_with(part + other, part),
        begins_with(s, part) ==> s == part + s.skip(part.len() as int),
        finishes_with(other + part, part),
        finishes_with(s, part) ==> s == s.take(s.len() - part.len()) + part,
{
    assert((part + other).subrange(0, part.len() as int) =~= part);
    let r = other + part;
    assert(r.subrange(r.len() - part.len(), r.len() as int) =~= part);
    if begins_with(s, part) {
        assert(s =~= part + s.skip(part.len() as int));
    }
    if finishes_with(s, part) {
        assert(s =~= s.take(s.len() - part.len()) + part);
    }
}

} // verus!
