//! What the functions of the library do, by what is put in and what comes
//! out.

use crate::eval::value::{number_of_text, truth, ValueModel};
use crate::eval::{eval, results, Here, Surroundings};
use crate::functions::names::{lemma_number_names, lemma_other_names, lemma_text_names};
use crate::functions::{
    all_numbers, any_nan, applied, arity, builtin, concatenated, extreme, first_place, in_substring,
    least, most, number_result, number_zero, numbers_of_texts, offset, strings_from, substring,
    text_result, total_from, translated, Builtin, Evaluated,
};
use crate::number::counting::EXACT;
use crate::number::laws::{
    is_held, law_integers_add_up, law_integers_are_whole, law_integers_keep_their_order,
    law_whole_numbers_near, lemma_held, lemma_ones, of_int,
};
use crate::number::{
    equal, greater, is_finite, is_nan, is_negative, is_zero, less_or_same, lesser, magnitude,
    of_count, one, signed_units, sum, with_sign, Number, Toward, INFINITE,
};
use crate::parser::ast::ExprModel;
use crate::text::laws::{
    law_beginnings_and_ends, law_found_first, law_trim_takes_off_white_space, law_words_are_runs,
    none_white,
};
use crate::text::{
    begins_with, find, finishes_with, is_white, join, lemma_join_first, lemma_span, span, words,
    Class,
};
use crate::tree::{NodeId, Tree};
use vstd::prelude::*;

verus! {

/// A call of a function by its name.
pub open spec fn call_of(
    name: Seq<char>,
    args: Seq<ExprModel>,
    t: Tree,
    here: Here,
    env: Surroundings,
) -> Evaluated {
    eval(ExprModel::Function { name, args }, t, here, env)
}

/// Whether an expression comes to a text.
pub open spec fn says(
    a: ExprModel,
    s: Seq<char>,
    t: Tree,
    here: Here,
    env: Surroundings,
) -> bool {
    text_result(eval(a, t, here, env), t) == Ok::<Seq<char>, Seq<char>>(s)
}

/// Whether an expression comes to a number.
pub open spec fn makes(a: ExprModel, n: Number, t: Tree, here: Here, env: Surroundings) -> bool {
    number_result(eval(a, t, here, env), t) == Ok::<Number, Seq<char>>(n)
}

/// Whether an expression comes to nodes.
pub open spec fn finds(
    a: ExprModel,
    nodes: Seq<NodeId>,
    t: Tree,
    here: Here,
    env: Surroundings,
) -> bool {
    eval(a, t, here, env) == Ok::<ValueModel, Seq<char>>(ValueModel::NodeSet(nodes))
}

pub open spec fn text(s: Seq<char>) -> Evaluated {
    Ok(ValueModel::String(s))
}

pub open spec fn number(n: Number) -> Evaluated {
    Ok(ValueModel::Number(n))
}

pub open spec fn verdict(b: bool) -> Evaluated {
    Ok(ValueModel::Boolean(b))
}

pub proof fn lemma_call(
    b: Builtin,
    name: Seq<char>,
    args: Seq<ExprModel>,
    t: Tree,
    here: Here,
    env: Surroundings,
)
    requires
        builtin(name) == Some(b),
        arity(b) matches Some((low, high)) ==> low <= args.len() <= high,
    ensures
        call_of(name, args, t, here, env) == applied(
            b,
            name,
            args,
            results(args, t, here, env),
            t,
            here,
            env,
        ),
        results(args, t, here, env).len() == args.len(),
        forall|i: int|
            0 <= i < args.len() ==> #[trigger] results(args, t, here, env)[i] == eval(
                args[i],
                t,
                here,
                env,
            ),
{
}

// ---------------------------------------------------------------------------
// Parts of texts
// ---------------------------------------------------------------------------

/// `contains` says whether a text is something, the part, and something
/// more. Where it is, `substring-before` and `substring-after` are what
/// stands around the first such part: with the part between them they make
/// the text. Where it is not, both are empty. `starts-with` and `ends-with`
/// look at the two ends.
#[verifier::rlimit(50)]
pub proof fn law_parts_of_a_text(
    a: ExprModel,
    b: ExprModel,
    s: Seq<char>,
    p: Seq<char>,
    t: Tree,
    here: Here,
    env: Surroundings,
)
    requires
        says(a, s, t, here, env),
        says(b, p, t, here, env),
    ensures
        call_of("contains"@, seq![a, b], t, here, env) == verdict(
            exists|x: Seq<char>, y: Seq<char>| s == #[trigger] (x + p + y),
        ),
        call_of("starts-with"@, seq![a, b], t, here, env) == verdict(
            exists|y: Seq<char>| s == #[trigger] (p + y),
        ),
        call_of("ends-with"@, seq![a, b], t, here, env) == verdict(
            exists|x: Seq<char>| s == #[trigger] (x + p),
        ),
        ({
            let before = call_of("substring-before"@, seq![a, b], t, here, env);
            let after = call_of("substring-after"@, seq![a, b], t, here, env);
            if exists|x: Seq<char>, y: Seq<char>| s == #[trigger] (x + p + y) {
                &&& before matches Ok(ValueModel::String(x)) && after matches Ok(
                    ValueModel::String(y),
                ) && s == x + p + y
                &&& before matches Ok(ValueModel::String(x)) && forall|v: Seq<char>, w: Seq<char>|
                    s == #[trigger] (v + p + w) ==> x.len() <= v.len()
            } else {
                before == text(Seq::empty()) && after == text(Seq::empty())
            }
        }),
{
    lemma_text_names();
    let args = seq![a, b];
    assert(args[0] == a && args[1] == b);
    lemma_call(Builtin::Contains, "contains"@, args, t, here, env);
    lemma_call(Builtin::StartsWith, "starts-with"@, args, t, here, env);
    lemma_call(Builtin::EndsWith, "ends-with"@, args, t, here, env);
    lemma_call(Builtin::SubstringBefore, "substring-before"@, args, t, here, env);
    lemma_call(Builtin::SubstringAfter, "substring-after"@, args, t, here, env);
    law_found_first(s, p);
    if let Some(i) = find(s, p) {
        assert(s == s.take(i) + p + s.skip(i + p.len()));
    }
    law_beginnings_and_ends(s, p, s);
    assert forall|y: Seq<char>| s == #[trigger] (p + y) implies begins_with(s, p) by {
        law_beginnings_and_ends(s, p, y);
    }
    assert forall|x: Seq<char>| s == #[trigger] (x + p) implies finishes_with(s, p) by {
        law_beginnings_and_ends(s, p, x);
    }
    if begins_with(s, p) {
        assert(s == p + s.skip(p.len() as int));
    }
    if finishes_with(s, p) {
        assert(s == s.take(s.len() - p.len()) + p);
    }
}

/// A place held between the ends of a text.
pub open spec fn within(i: int, len: nat) -> int {
    if i < 0 {
        0
    } else if i > len {
        len as int
    } else {
        i
    }
}

/// The characters of a text from one place up to another.
pub open spec fn stretch(s: Seq<char>, from: int, to: int) -> Seq<char> {
    let a = within(from, s.len());
    let b = within(to, s.len());
    if a < b {
        s.subrange(a, b)
    } else {
        Seq::empty()
    }
}

/// How many characters are wanted, as a number.
spec fn wanted(count: Option<int>) -> Option<Number> {
    match count {
        Some(k) => Some(of_int(k)),
        None => None,
    }
}

/// Where a part of a text ends that begins at a place, counted from 1.
spec fn end_of_part(len: nat, i: int, count: Option<int>) -> int {
    match count {
        Some(k) => i - 1 + k,
        None => len as int,
    }
}

proof fn lemma_in_substring(p: nat, i: int, count: Option<int>)
    requires
        p < EXACT,
        is_held(i),
        count matches Some(k) ==> is_held(k) && is_held(i + k),
    ensures
        in_substring(p, of_int(i), wanted(count)) <==> i - 1 < p && (count matches Some(k) ==> p
            <= i - 1 + k),
{
    law_integers_are_whole(i, Toward::Nearest, 0, 0);
    law_integers_keep_their_order(i, p as int);
    if let Some(k) = count {
        law_integers_are_whole(k, Toward::Nearest, 0, 0);
        law_integers_add_up(i, k);
        law_integers_keep_their_order(p as int, i + k);
    }
    assert(of_count(p) == of_int(p as int));
}

proof fn lemma_stretch(s: Seq<char>, i: int, count: Option<int>)
    requires
        s.len() > 0,
    ensures
        ({
            let d = s.drop_last();
            let p = s.len();
            let was = stretch(d, i - 1, end_of_part(d.len(), i, count));
            stretch(s, i - 1, end_of_part(p, i, count)) == if i - 1 < p && (count matches Some(k)
                ==> p <= i - 1 + k) {
                was.push(s.last())
            } else {
                was
            }
        }),
{
    let d = s.drop_last();
    let was = stretch(d, i - 1, end_of_part(d.len(), i, count));
    let now = stretch(s, i - 1, end_of_part(s.len(), i, count));
    if i - 1 < s.len() && (count matches Some(k) ==> s.len() <= i - 1 + k) {
        assert(was.push(s.last()) =~= now);
    } else {
        assert(was =~= now);
    }
}

proof fn lemma_substring(s: Seq<char>, i: int, count: Option<int>)
    requires
        s.len() < EXACT,
        is_held(i),
        count matches Some(k) ==> is_held(k) && is_held(i + k),
    ensures
        substring(s, of_int(i), wanted(count)) == stretch(
            s,
            i - 1,
            end_of_part(s.len(), i, count),
        ),
    decreases s.len(),
{
    if s.len() > 0 {
        lemma_substring(s.drop_last(), i, count);
        lemma_in_substring(s.len(), i, count);
        lemma_stretch(s, i, count);
    } else {
        assert(stretch(s, i - 1, end_of_part(s.len(), i, count)) =~= Seq::<char>::empty());
    }
}

/// `substring` counts characters from 1: it leaves so many from a place on,
/// or all from there on; places before the first count too, and hold nothing.
#[verifier::rlimit(50)]
pub proof fn law_substring_counts_from_one(
    a: ExprModel,
    b: ExprModel,
    c: ExprModel,
    s: Seq<char>,
    i: int,
    k: int,
    t: Tree,
    here: Here,
    env: Surroundings,
)
    requires
        says(a, s, t, here, env),
        makes(b, of_int(i), t, here, env),
        makes(c, of_int(k), t, here, env),
        s.len() < EXACT,
        is_held(i),
        is_held(k),
        is_held(i + k),
    ensures
        call_of("substring"@, seq![a, b, c], t, here, env) == text(stretch(s, i - 1, i - 1 + k)),
        call_of("substring"@, seq![a, b], t, here, env) == text(
            stretch(s, i - 1, s.len() as int),
        ),
{
    lemma_text_names();
    let three = seq![a, b, c];
    let two = seq![a, b];
    assert(three[0] == a && three[1] == b && three[2] == c && two[0] == a && two[1] == b);
    lemma_call(Builtin::Substring, "substring"@, three, t, here, env);
    lemma_call(Builtin::Substring, "substring"@, two, t, here, env);
    lemma_substring(s, i, Some(k));
    lemma_substring(s, i, None);
}

/// Where an offset leads in a text of some length: from the front, or from
/// the end where it is below zero.
pub open spec fn counted_from(i: int, len: nat) -> int {
    within(
        if i < 0 {
            len + i
        } else {
            i
        },
        len,
    )
}

proof fn lemma_offset(i: int, len: nat)
    requires
        is_held(i),
        len < EXACT,
        len <= usize::MAX,
    ensures
        offset(of_int(i), len) == counted_from(i, len),
{
    let n = len as int;
    lemma_ones(0);
    lemma_held(0);
    law_integers_keep_their_order(i, 0);
    assert(number_zero() == of_int(0));
    assert(of_count(len) == of_int(n));
    if i < 0 {
        law_integers_add_up(n, i);
        law_integers_keep_their_order(n + i, 0);
        lemma_held(n + i);
        let m = if n + i < 0 {
            0
        } else {
            n + i
        };
        assert(greater(of_int(n + i), of_int(0)) == of_int(m));
        law_integers_are_whole(m, Toward::Zero, 0, usize::MAX as int);
    } else {
        law_integers_keep_their_order(n, i);
        lemma_held(i);
        let m = if n < i {
            n
        } else {
            i
        };
        assert(lesser(of_int(i), of_int(n)) == of_int(m));
        law_integers_are_whole(m, Toward::Zero, 0, usize::MAX as int);
    }
}

/// `substr` counts from 0 and leaves out its end; below zero it counts from
/// the end of the text.
#[verifier::rlimit(50)]
pub proof fn law_substr_counts_from_zero(
    a: ExprModel,
    b: ExprModel,
    c: ExprModel,
    s: Seq<char>,
    i: int,
    j: int,
    t: Tree,
    here: Here,
    env: Surroundings,
)
    requires
        says(a, s, t, here, env),
        makes(b, of_int(i), t, here, env),
        makes(c, of_int(j), t, here, env),
        s.len() < EXACT,
        s.len() <= usize::MAX,
        is_held(i),
        is_held(j),
    ensures
        call_of("substr"@, seq![a, b, c], t, here, env) == text(
            stretch(s, counted_from(i, s.len()), counted_from(j, s.len())),
        ),
        call_of("substr"@, seq![a, b], t, here, env) == text(
            stretch(s, counted_from(i, s.len()), s.len() as int),
        ),
{
    lemma_text_names();
    let three = seq![a, b, c];
    let two = seq![a, b];
    assert(three[0] == a && three[1] == b && three[2] == c && two[0] == a && two[1] == b);
    lemma_call(Builtin::Substr, "substr"@, three, t, here, env);
    lemma_call(Builtin::Substr, "substr"@, two, t, here, env);
    lemma_offset(i, s.len());
    lemma_offset(j, s.len());
}

/// How many characters a text has.
#[verifier::rlimit(50)]
pub proof fn law_string_length(
    a: ExprModel,
    s: Seq<char>,
    t: Tree,
    here: Here,
    env: Surroundings,
)
    requires
        says(a, s, t, here, env),
    ensures
        call_of("string-length"@, seq![a], t, here, env) == number(of_int(s.len() as int)),
        call_of("string"@, seq![a], t, here, env) == text(s),
        call_of("number"@, seq![ExprModel::Literal(s)], t, here, env) == number(
            number_of_text(s),
        ),
{
    lemma_text_names();
    lemma_number_names();
    let args = seq![a];
    assert(args[0] == a);
    lemma_call(Builtin::StringLength, "string-length"@, args, t, here, env);
    lemma_call(Builtin::Text, "string"@, args, t, here, env);
    let lit = seq![ExprModel::Literal(s)];
    assert(lit[0] == ExprModel::Literal(s));
    lemma_call(Builtin::Number, "number"@, lit, t, here, env);
}

// ---------------------------------------------------------------------------
// Words
// ---------------------------------------------------------------------------

/// What the words of a text are made of.
#[verifier::rlimit(50)]
proof fn lemma_words(s: Seq<char>)
    ensures
        forall|i: int|
            0 <= i < words(s).len() ==> (#[trigger] words(s)[i]).len() > 0 && none_white(
                words(s)[i],
            ),
    decreases s.len(),
{
    let a = span(s, 0, Class::White);
    lemma_span(s, 0, Class::White);
    if a < s.len() {
        let b = span(s, a, Class::NotWhite);
        lemma_span(s, a, Class::NotWhite);
        lemma_span(s, a + 1, Class::NotWhite);
        lemma_words(s.skip(b));
        let first = s.subrange(a, b);
        assert forall|x: int| 0 <= x < first.len() implies !is_white(#[trigger] first[x]) by {
            assert(crate::text::in_class(Class::NotWhite, s[a + x]));
        }
        let w = words(s);
        assert forall|i: int| 0 <= i < w.len() implies (#[trigger] w[i]).len() > 0 && none_white(
            w[i],
        ) by {
            if i > 0 {
                assert(w[i] == words(s.skip(b))[i - 1]);
            }
        }
    }
}

/// Whether white space in a text is single spaces, and none at its ends.
pub open spec fn is_tidy(s: Seq<char>) -> bool {
    forall|i: int|
        0 <= i < s.len() && is_white(#[trigger] s[i]) ==> s[i] == ' ' && 0 < i < s.len() - 1
            && !is_white(s[i - 1]) && !is_white(s[i + 1])
}

#[verifier::rlimit(50)]
proof fn lemma_tidy(w: Seq<Seq<char>>)
    requires
        forall|i: int| 0 <= i < w.len() ==> (#[trigger] w[i]).len() > 0 && none_white(w[i]),
    ensures
        words(join(w, " "@)) == w,
        is_tidy(join(w, " "@)),
        w.len() > 0 ==> join(w, " "@).len() > 0 && !is_white(join(w, " "@)[0]),
    decreases w.len(),
{
    reveal_strlit(" ");
    let s = join(w, " "@);
    let none = Seq::<char>::empty();
    if w.len() == 0 {
        law_words_are_runs(none, seq!['x'], none);
    } else if w.len() == 1 {
        assert(w[0].len() > 0 && none_white(w[0]));
        law_words_are_runs(none, w[0], none);
        assert(none + w[0] + none =~= s);
        assert(words(s) =~= w);
    } else {
        let first = w[0];
        let rest = w.skip(1);
        assert(first.len() > 0 && none_white(first));
        assert(w =~= seq![first] + rest);
        lemma_join_first(first, rest, " "@);
        assert forall|i: int| 0 <= i < rest.len() implies (#[trigger] rest[i]).len() > 0
            && none_white(rest[i]) by {
            assert(rest[i] == w[i + 1]);
        }
        lemma_tidy(rest);
        let tail = join(rest, " "@);
        assert(" "@ =~= seq![' ']);
        assert(s =~= first + (seq![' '] + tail));
        let gapped = seq![' '] + tail;
        law_words_are_runs(none, first, gapped);
        assert(none + first + gapped =~= s);
        lemma_gap(tail);
        assert(words(s) =~= w);
        assert forall|i: int| 0 <= i < s.len() && is_white(#[trigger] s[i]) implies s[i] == ' ' && 0
            < i < s.len() - 1 && !is_white(s[i - 1]) && !is_white(s[i + 1]) by {
            let n = first.len() as int;
            if i < n {
                assert(s[i] == first[i]);
            } else if i == n {
                assert(s[i - 1] == first[n - 1]);
                assert(s[i + 1] == tail[0]);
            } else {
                assert(s[i] == tail[i - n - 1]);
                assert(s[i - 1] == tail[i - n - 2]);
                assert(s[i + 1] == tail[i - n]);
            }
        }
    }
}

/// A space before a text adds no word.
proof fn lemma_gap(s: Seq<char>)
    ensures
        words(seq![' '] + s) == words(s),
{
    let r = seq![' '] + s;
    let a = span(s, 0, Class::White);
    lemma_span(s, 0, Class::White);
    lemma_span_shift(r, s, 0);
    if a < s.len() {
        let b = span(s, a, Class::NotWhite);
        lemma_span(s, a, Class::NotWhite);
        lemma_span_not(r, s, a);
        assert(r.subrange(a + 1, b + 1) =~= s.subrange(a, b));
        assert(r.skip(b + 1) =~= s.skip(b));
    }
}

proof fn lemma_span_shift(r: Seq<char>, s: Seq<char>, i: int)
    requires
        r == seq![' '] + s,
        0 <= i <= s.len(),
    ensures
        span(r, i + 1, Class::White) == span(s, i, Class::White) + 1,
        i == 0 ==> span(r, 0, Class::White) == span(s, 0, Class::White) + 1,
    decreases s.len() - i,
{
    assert(r[0] == ' ');
    if i < s.len() {
        assert(r[i + 1] == s[i]);
        lemma_span_shift(r, s, i + 1);
    }
    assert(span(r, i + 1, Class::White) == span(s, i, Class::White) + 1);
    assert(crate::text::in_class(Class::White, ' '));
}

proof fn lemma_span_not(r: Seq<char>, s: Seq<char>, i: int)
    requires
        r == seq![' '] + s,
        0 <= i <= s.len(),
    ensures
        span(r, i + 1, Class::NotWhite) == span(s, i, Class::NotWhite) + 1,
    decreases s.len() - i,
{
    if i < s.len() {
        assert(r[i + 1] == s[i]);
        lemma_span_not(r, s, i + 1);
    }
}

/// `normalize-space` keeps the words of a text, with one space between each
/// two and nothing around them.
#[verifier::rlimit(50)]
pub proof fn law_normalized_keeps_the_words(
    a: ExprModel,
    s: Seq<char>,
    t: Tree,
    here: Here,
    env: Surroundings,
)
    requires
        says(a, s, t, here, env),
    ensures
        call_of("normalize-space"@, seq![a], t, here, env) matches Ok(ValueModel::String(r))
            && words(r) == words(s) && is_tidy(r),
{
    lemma_text_names();
    let args = seq![a];
    assert(args[0] == a);
    lemma_call(Builtin::NormalizeSpace, "normalize-space"@, args, t, here, env);
    lemma_words(s);
    lemma_tidy(words(s));
}

/// An answer to a question with several choices is its words:
/// `count-selected` counts them, `selected` says whether one is among them,
/// `selected-at` gives the one at a place, counted from 0, and nothing where
/// there is none.
#[verifier::rlimit(50)]
pub proof fn law_choices_are_words(
    a: ExprModel,
    b: ExprModel,
    c: ExprModel,
    s: Seq<char>,
    choice: Seq<char>,
    i: int,
    t: Tree,
    here: Here,
    env: Surroundings,
)
    requires
        says(a, s, t, here, env),
        says(b, choice, t, here, env),
        choice.len() > 0,
        none_white(choice),
        makes(c, of_int(i), t, here, env),
        is_held(i),
        i <= usize::MAX,
    ensures
        call_of("count-selected"@, seq![a], t, here, env) == number(
            of_int(words(s).len() as int),
        ),
        call_of("selected"@, seq![a, b], t, here, env) == verdict(words(s).contains(choice)),
        call_of("selected-at"@, seq![a, c], t, here, env) == text(
            if 0 <= i < words(s).len() {
                words(s)[i]
            } else {
                Seq::empty()
            },
        ),
{
    lemma_other_names();
    let one = seq![a];
    let two = seq![a, b];
    let third = seq![a, c];
    assert(one[0] == a && two[0] == a && two[1] == b && third[0] == a && third[1] == c);
    lemma_call(Builtin::CountSelected, "count-selected"@, one, t, here, env);
    lemma_call(Builtin::Selected, "selected"@, two, t, here, env);
    lemma_call(Builtin::SelectedAt, "selected-at"@, third, t, here, env);
    let none = Seq::<char>::empty();
    law_trim_takes_off_white_space(none, choice, none);
    assert(none + choice + none =~= choice);
    lemma_ones(0);
    lemma_held(0);
    law_integers_keep_their_order(i, 0);
    law_integers_are_whole(i, Toward::Zero, 0, usize::MAX as int);
}

// ---------------------------------------------------------------------------
// Putting texts together
// ---------------------------------------------------------------------------

#[verifier::rlimit(50)]
proof fn lemma_concatenated(
    args: Seq<ExprModel>,
    parts: Seq<Seq<char>>,
    k: int,
    t: Tree,
    here: Here,
    env: Surroundings,
)
    requires
        args.len() == parts.len(),
        0 <= k <= args.len(),
        forall|i: int| 0 <= i < args.len() ==> says(#[trigger] args[i], parts[i], t, here, env),
    ensures
        concatenated(results(args, t, here, env), t, k) == Ok::<Seq<char>, Seq<char>>(
            run_together(parts.skip(k)),
        ),
    decreases args.len() - k,
{
    let r = results(args, t, here, env);
    if k < args.len() {
        assert(r[k] == eval(args[k], t, here, env));
        assert(says(args[k], parts[k], t, here, env));
        lemma_concatenated(args, parts, k + 1, t, here, env);
        assert(parts.skip(k).skip(1) =~= parts.skip(k + 1));
    } else {
        assert(parts.skip(k).len() == 0);
    }
}

/// Texts one after another.
pub open spec fn run_together(parts: Seq<Seq<char>>) -> Seq<char>
    decreases parts.len(),
{
    if parts.len() == 0 {
        Seq::empty()
    } else {
        parts[0] + run_together(parts.skip(1))
    }
}

#[verifier::rlimit(50)]
proof fn lemma_strings(t: Tree, nodes: Seq<NodeId>, k: int)
    requires
        t.all_in(nodes),
        0 <= k <= nodes.len(),
    ensures
        strings_from(t, nodes, k) == Ok::<Seq<Seq<char>>, Seq<char>>(
            Seq::new((nodes.len() - k) as nat, |i: int| t.string_value(nodes[k + i])),
        ),
    decreases nodes.len() - k,
{
    if k < nodes.len() {
        assert(t.has(nodes[k]));
        lemma_strings(t, nodes, k + 1);
        assert(seq![t.string_value(nodes[k])] + Seq::new(
            (nodes.len() - k - 1) as nat,
            |i: int| t.string_value(nodes[k + 1 + i]),
        ) =~= Seq::new((nodes.len() - k) as nat, |i: int| t.string_value(nodes[k + i])));
    } else {
        assert(Seq::new((nodes.len() - k) as nat, |i: int| t.string_value(nodes[k + i])) =~= Seq::<
            Seq<char>,
        >::empty());
    }
}

/// What the nodes of a list hold.
pub open spec fn held_by(t: Tree, nodes: Seq<NodeId>) -> Seq<Seq<char>> {
    Seq::new(nodes.len(), |i: int| t.string_value(nodes[i]))
}

/// `concat` puts texts one after another; given nothing but a node-set, it
/// puts together what all its nodes hold. `join` does so with a text between
/// each two.
#[verifier::rlimit(50)]
pub proof fn law_texts_are_put_together(
    args: Seq<ExprModel>,
    parts: Seq<Seq<char>>,
    a: ExprModel,
    b: ExprModel,
    separator: Seq<char>,
    nodes: Seq<NodeId>,
    t: Tree,
    here: Here,
    env: Surroundings,
)
    requires
        args.len() != 1,
        args.len() == parts.len(),
        forall|i: int| 0 <= i < args.len() ==> says(#[trigger] args[i], parts[i], t, here, env),
        says(a, separator, t, here, env),
        finds(b, nodes, t, here, env),
        t.all_in(nodes),
    ensures
        call_of("concat"@, args, t, here, env) == text(run_together(parts)),
        call_of("concat"@, seq![b], t, here, env) == text(join(held_by(t, nodes), ""@)),
        call_of("join"@, seq![a, b], t, here, env) == text(join(held_by(t, nodes), separator)),
{
    lemma_text_names();
    lemma_other_names();
    lemma_call(Builtin::Concat, "concat"@, args, t, here, env);
    lemma_concatenated(args, parts, 0, t, here, env);
    assert(parts.skip(0) =~= parts);
    let only = seq![b];
    let two = seq![a, b];
    assert(only[0] == b && two[0] == a && two[1] == b);
    lemma_call(Builtin::Concat, "concat"@, only, t, here, env);
    lemma_call(Builtin::Join, "join"@, two, t, here, env);
    lemma_strings(t, nodes, 0);
    assert(Seq::new((nodes.len() - 0) as nat, |i: int| t.string_value(nodes[0 + i])) =~= held_by(
        t,
        nodes,
    ));
}

/// `translate` puts each character by itself: one that is not listed stays,
/// one that is becomes the character at its place, and is left out where
/// there is none.
#[verifier::rlimit(50)]
pub proof fn law_translated_one_by_one(
    s: Seq<char>,
    c: char,
    from: Seq<char>,
    to: Seq<char>,
    i: int,
)
    ensures
        translated(Seq::empty(), from, to) == Seq::<char>::empty(),
        !from.contains(c) ==> translated(s.push(c), from, to) == translated(s, from, to).push(c),
        0 <= i < from.len() && from[i] == c && (forall|j: int| 0 <= j < i ==> from[j] != c) ==> {
            translated(s.push(c), from, to) == translated(s, from, to) + (if i < to.len() {
                seq![to[i]]
            } else {
                Seq::empty()
            })
        },
{
    assert(s.push(c).drop_last() =~= s);
    if !from.contains(c) {
        lemma_no_place(from, c, 0);
    }
    if 0 <= i < from.len() && from[i] == c && (forall|j: int| 0 <= j < i ==> from[j] != c) {
        lemma_first_place(from, c, 0, i);
        if i >= to.len() {
            assert(translated(s, from, to) + Seq::<char>::empty() =~= translated(s, from, to));
        }
    }
}

proof fn lemma_no_place(s: Seq<char>, c: char, i: int)
    requires
        !s.contains(c),
        0 <= i <= s.len(),
    ensures
        first_place(s, c, i) == s.len(),
    decreases s.len() - i,
{
    if i < s.len() {
        assert(s.contains(s[i]));
        lemma_no_place(s, c, i + 1);
    }
}

proof fn lemma_first_place(s: Seq<char>, c: char, k: int, i: int)
    requires
        0 <= k <= i < s.len(),
        s[i] == c,
        forall|j: int| 0 <= j < i ==> s[j] != c,
    ensures
        first_place(s, c, k) == i,
    decreases i - k,
{
    if k < i {
        lemma_first_place(s, c, k + 1, i);
    }
}

/// `translate` is called with the text, what is looked for and what it
/// becomes, in this order.
#[verifier::rlimit(50)]
pub proof fn law_translate(
    a: ExprModel,
    b: ExprModel,
    c: ExprModel,
    s: Seq<char>,
    from: Seq<char>,
    to: Seq<char>,
    t: Tree,
    here: Here,
    env: Surroundings,
)
    requires
        says(a, s, t, here, env),
        says(b, from, t, here, env),
        says(c, to, t, here, env),
    ensures
        call_of("translate"@, seq![a, b, c], t, here, env) == text(translated(s, from, to)),
{
    lemma_text_names();
    let args = seq![a, b, c];
    assert(args[0] == a && args[1] == b && args[2] == c);
    lemma_call(Builtin::Translate, "translate"@, args, t, here, env);
}

// ---------------------------------------------------------------------------
// Truth
// ---------------------------------------------------------------------------

/// Whether a value counts as true: a number that is one and not zero, a text
/// that is not empty, nodes that are there.
pub open spec fn counts_as_true(v: ValueModel) -> bool {
    match v {
        ValueModel::Boolean(b) => b,
        ValueModel::Number(n) => !is_nan(n) && !equal(n, of_int(0)),
        ValueModel::String(s) => s != Seq::<char>::empty(),
        ValueModel::NodeSet(nodes) => nodes != Seq::<NodeId>::empty(),
    }
}

/// `boolean` says whether a value counts as true and `not` whether it does
/// not; `true` and `false` say what they are called. `boolean-from-string`
/// takes nothing for true but 1 and true.
#[verifier::rlimit(50)]
pub proof fn law_truth(
    a: ExprModel,
    v: ValueModel,
    s: Seq<char>,
    t: Tree,
    here: Here,
    env: Surroundings,
)
    requires
        eval(a, t, here, env) == Ok::<ValueModel, Seq<char>>(v),
        says(a, s, t, here, env),
    ensures
        truth(v) <==> counts_as_true(v),
        call_of("boolean"@, seq![a], t, here, env) == verdict(counts_as_true(v)),
        call_of("not"@, seq![a], t, here, env) == verdict(!counts_as_true(v)),
        call_of("true"@, Seq::empty(), t, here, env) == verdict(true),
        call_of("false"@, Seq::empty(), t, here, env) == verdict(false),
        call_of("boolean-from-string"@, seq![a], t, here, env) == verdict(
            s == "1"@ || s == "true"@,
        ),
{
    lemma_text_names();
    lemma_number_names();
    let args = seq![a];
    assert(args[0] == a);
    lemma_call(Builtin::Truth, "boolean"@, args, t, here, env);
    lemma_call(Builtin::Not, "not"@, args, t, here, env);
    lemma_call(Builtin::True, "true"@, Seq::empty(), t, here, env);
    lemma_call(Builtin::False, "false"@, Seq::empty(), t, here, env);
    lemma_call(Builtin::BooleanFromString, "boolean-from-string"@, args, t, here, env);
    lemma_held(0);
    match v {
        ValueModel::String(x) => {
            if x.len() == 0 {
                assert(x =~= Seq::<char>::empty());
            }
        },
        ValueModel::NodeSet(nodes) => {
            if nodes.len() == 0 {
                assert(nodes =~= Seq::<NodeId>::empty());
            }
        },
        _ => {},
    }
}

/// `if` takes the second argument where the first counts as true and the
/// third where it does not; `coalesce` takes the first of two texts that is
/// not empty; `once` keeps what the question holds.
#[verifier::rlimit(50)]
pub proof fn law_choosing(
    a: ExprModel,
    b: ExprModel,
    c: ExprModel,
    v: ValueModel,
    x: Seq<char>,
    y: Seq<char>,
    t: Tree,
    here: Here,
    env: Surroundings,
)
    requires
        eval(a, t, here, env) == Ok::<ValueModel, Seq<char>>(v),
        says(b, x, t, here, env),
        says(c, y, t, here, env),
        t.has(here.node),
    ensures
        call_of("if"@, seq![a, b, c], t, here, env) == if counts_as_true(v) {
            eval(b, t, here, env)
        } else {
            eval(c, t, here, env)
        },
        call_of("coalesce"@, seq![b, c], t, here, env) == text(
            if x == Seq::<char>::empty() {
                y
            } else {
                x
            },
        ),
        call_of("once"@, seq![a], t, here, env) == text(t.string_value(here.node)),
{
    lemma_other_names();
    let three = seq![a, b, c];
    let two = seq![b, c];
    let one = seq![a];
    assert(three[0] == a && three[1] == b && three[2] == c && two[0] == b && two[1] == c);
    assert(one[0] == a);
    lemma_call(Builtin::If, "if"@, three, t, here, env);
    lemma_call(Builtin::Coalesce, "coalesce"@, two, t, here, env);
    lemma_call(Builtin::Once, "once"@, one, t, here, env);
    lemma_held(0);
    match v {
        ValueModel::String(s) => {
            if s.len() == 0 {
                assert(s =~= Seq::<char>::empty());
            }
        },
        ValueModel::NodeSet(nodes) => {
            if nodes.len() == 0 {
                assert(nodes =~= Seq::<NodeId>::empty());
            }
        },
        _ => {},
    }
    if x.len() == 0 {
        assert(x =~= Seq::<char>::empty());
    }
}

// ---------------------------------------------------------------------------
// Nodes
// ---------------------------------------------------------------------------

/// `count` counts nodes, `position` and `last` say which of how many the
/// context node is, `name` and `local-name` name a node: the first of some,
/// or the context node.
#[verifier::rlimit(50)]
pub proof fn law_counting_and_naming_nodes(
    a: ExprModel,
    nodes: Seq<NodeId>,
    t: Tree,
    here: Here,
    env: Surroundings,
)
    requires
        finds(a, nodes, t, here, env),
        t.all_in(nodes),
        t.has(here.node),
    ensures
        call_of("count"@, seq![a], t, here, env) == number(of_int(nodes.len() as int)),
        call_of("position"@, Seq::empty(), t, here, env) == number(of_int(here.position as int)),
        call_of("last"@, Seq::empty(), t, here, env) == number(of_int(here.size as int)),
        call_of("name"@, Seq::empty(), t, here, env) == text(t.name(here.node)),
        call_of("local-name"@, Seq::empty(), t, here, env) == text(t.name(here.node)),
        call_of("name"@, seq![a], t, here, env) == text(
            if nodes.len() == 0 {
                Seq::empty()
            } else {
                t.name(nodes[0])
            },
        ),
        call_of("string"@, Seq::empty(), t, here, env) == text(t.string_value(here.node)),
        call_of("string"@, seq![a], t, here, env) == text(
            if nodes.len() == 0 {
                Seq::empty()
            } else {
                t.string_value(nodes[0])
            },
        ),
{
    lemma_text_names();
    let args = seq![a];
    let none = Seq::<ExprModel>::empty();
    assert(args[0] == a);
    lemma_call(Builtin::Count, "count"@, args, t, here, env);
    lemma_call(Builtin::Position, "position"@, none, t, here, env);
    lemma_call(Builtin::Last, "last"@, none, t, here, env);
    lemma_call(Builtin::Name, "name"@, none, t, here, env);
    lemma_call(Builtin::Name, "local-name"@, none, t, here, env);
    lemma_call(Builtin::Name, "name"@, args, t, here, env);
    lemma_call(Builtin::Text, "string"@, none, t, here, env);
    lemma_call(Builtin::Text, "string"@, args, t, here, env);
    if nodes.len() > 0 {
        assert(t.has(nodes[0]));
    }
}

proof fn lemma_total(t: Tree, nodes: Seq<NodeId>, n: NodeId, k: int, so_far: Number)
    requires
        t.all_in(nodes),
        t.has(n),
        0 <= k <= nodes.len(),
    ensures
        total_from(t, nodes, k, so_far) matches Ok(x) && total_from(t, nodes.push(n), k, so_far)
            == Ok::<Number, Seq<char>>(sum(x, number_of_text(t.string_value(n)))),
    decreases nodes.len() - k,
{
    let all = nodes.push(n);
    if k < nodes.len() {
        assert(t.has(nodes[k]));
        assert(all[k] == nodes[k]);
        lemma_total(t, nodes, n, k + 1, sum(so_far, number_of_text(t.string_value(nodes[k]))));
    } else {
        assert(all[k] == n);
        assert(total_from(t, all, k + 1, sum(so_far, number_of_text(t.string_value(n)))) == Ok::<
            Number,
            Seq<char>,
        >(sum(so_far, number_of_text(t.string_value(n)))));
    }
}

/// `sum` adds up what nodes hold: nothing comes to zero, and one node more
/// adds its number to the sum.
#[verifier::rlimit(50)]
pub proof fn law_sums(
    a: ExprModel,
    b: ExprModel,
    nodes: Seq<NodeId>,
    n: NodeId,
    t: Tree,
    here: Here,
    env: Surroundings,
)
    requires
        finds(a, nodes, t, here, env),
        finds(b, nodes.push(n), t, here, env),
        t.all_in(nodes),
        t.has(n),
    ensures
        call_of("sum"@, seq![a], t, here, env) matches Ok(ValueModel::Number(x)) && (nodes.len()
            == 0 ==> is_zero(x)) && call_of("sum"@, seq![b], t, here, env) == number(
            sum(x, number_of_text(t.string_value(n))),
        ),
{
    lemma_number_names();
    let one = seq![a];
    let two = seq![b];
    assert(one[0] == a && two[0] == b);
    lemma_call(Builtin::Sum, "sum"@, one, t, here, env);
    lemma_call(Builtin::Sum, "sum"@, two, t, here, env);
    lemma_total(t, nodes, n, 0, with_sign(true, 0));
    crate::number::lemma_with_sign(true, 0);
}

// ---------------------------------------------------------------------------
// Numbers
// ---------------------------------------------------------------------------

/// `floor`, `ceiling`, `int` and `round` go to a whole number: below, above,
/// toward zero, and nearest with half way away from zero. `abs` leaves out
/// the sign.
#[verifier::rlimit(50)]
pub proof fn law_whole_number_functions(
    a: ExprModel,
    x: Number,
    t: Tree,
    here: Here,
    env: Surroundings,
)
    requires
        makes(a, x, t, here, env),
        is_finite(x),
        -EXACT * one() < signed_units(x) < (EXACT - 1) * one(),
        signed_units(x) > -(EXACT - 1) * one(),
    ensures
        ({
            let u = signed_units(x);
            let w = one() as int;
            &&& is_the_integer(call_of("floor"@, seq![a], t, here, env), u / w)
            &&& is_the_integer(call_of("ceiling"@, seq![a], t, here, env), -((-u) / w))
            &&& is_the_integer(
                call_of("int"@, seq![a], t, here, env),
                if u < 0 {
                    -((-u) / w)
                } else {
                    u / w
                },
            )
            &&& is_the_integer(
                call_of("round"@, seq![a], t, here, env),
                if u < 0 {
                    -((-2 * u + w) / (2 * w))
                } else {
                    (2 * u + w) / (2 * w)
                },
            )
            &&& call_of("abs"@, seq![a], t, here, env) matches Ok(ValueModel::Number(y))
                && !is_negative(y) && signed_units(y) == (if u < 0 {
                -u
            } else {
                u
            })
        }),
{
    lemma_number_names();
    let args = seq![a];
    assert(args[0] == a);
    lemma_call(Builtin::Floor, "floor"@, args, t, here, env);
    lemma_call(Builtin::Ceiling, "ceiling"@, args, t, here, env);
    lemma_call(Builtin::Int, "int"@, args, t, here, env);
    lemma_call(Builtin::Round, "round"@, args, t, here, env);
    lemma_call(Builtin::Abs, "abs"@, args, t, here, env);
    law_whole_numbers_near(x);
    crate::number::lemma_with_sign(false, magnitude(x));
}

/// Whether a result is an integer.
pub open spec fn is_the_integer(r: Evaluated, n: int) -> bool {
    r matches Ok(ValueModel::Number(x)) && equal(x, of_int(n))
}

#[verifier::rlimit(50)]
proof fn lemma_least(s: Seq<Number>)
    requires
        !any_nan(s),
    ensures
        !is_nan(least(s)),
        forall|i: int| 0 <= i < s.len() ==> less_or_same(least(s), #[trigger] s[i]),
        s.len() > 0 ==> s.contains(least(s)),
        s.len() == 0 ==> least(s) == with_sign(false, INFINITE as nat),
    decreases s.len(),
{
    crate::number::lemma_with_sign(false, INFINITE as nat);
    if s.len() > 0 {
        let d = s.drop_last();
        assert forall|i: int| 0 <= i < d.len() implies !is_nan(#[trigger] d[i]) by {
            assert(d[i] == s[i]);
        }
        lemma_least(d);
        let x = s[s.len() - 1];
        assert(!is_nan(x));
        let r = least(s);
        assert forall|i: int| 0 <= i < s.len() implies less_or_same(r, #[trigger] s[i]) by {
            if i < d.len() {
                assert(less_or_same(least(d), d[i]));
            }
        }
        if r == x {
            assert(s.contains(s[s.len() - 1]));
        } else if d.len() > 0 {
            let k = choose|k: int| 0 <= k < d.len() && d[k] == least(d);
            assert(s[k] == r);
        } else {
            assert(magnitude(x) == INFINITE && !is_negative(x));
            assert(x == r);
        }
    }
}

#[verifier::rlimit(50)]
proof fn lemma_most(s: Seq<Number>)
    requires
        !any_nan(s),
    ensures
        !is_nan(most(s)),
        forall|i: int| 0 <= i < s.len() ==> less_or_same(#[trigger] s[i], most(s)),
        s.len() > 0 ==> s.contains(most(s)),
        s.len() == 0 ==> most(s) == with_sign(true, INFINITE as nat),
    decreases s.len(),
{
    crate::number::lemma_with_sign(true, INFINITE as nat);
    if s.len() > 0 {
        let d = s.drop_last();
        assert forall|i: int| 0 <= i < d.len() implies !is_nan(#[trigger] d[i]) by {
            assert(d[i] == s[i]);
        }
        lemma_most(d);
        let x = s[s.len() - 1];
        assert(!is_nan(x));
        let r = most(s);
        assert forall|i: int| 0 <= i < s.len() implies less_or_same(#[trigger] s[i], r) by {
            if i < d.len() {
                assert(less_or_same(d[i], most(d)));
            }
        }
        if r == x {
            assert(s.contains(s[s.len() - 1]));
        } else if d.len() > 0 {
            let k = choose|k: int| 0 <= k < d.len() && d[k] == most(d);
            assert(s[k] == r);
        } else {
            assert(magnitude(x) == INFINITE && is_negative(x));
            assert(x == r);
        }
    }
}

#[verifier::rlimit(50)]
proof fn lemma_numbers_given(r: Seq<Evaluated>, given: Seq<Number>, t: Tree, k: int)
    requires
        r.len() == given.len(),
        0 <= k <= r.len(),
        forall|i: int|
            0 <= i < r.len() ==> number_result(#[trigger] r[i], t) == Ok::<Number, Seq<char>>(
                given[i],
            ) && !(r[i]->Ok_0 is NodeSet),
    ensures
        all_numbers(r, t, k) == Ok::<Seq<Number>, Seq<char>>(given.skip(k)),
    decreases r.len() - k,
{
    if k < r.len() {
        assert(number_result(r[k], t) == Ok::<Number, Seq<char>>(given[k]));
        lemma_numbers_given(r, given, t, k + 1);
        assert(seq![given[k]] + given.skip(k + 1) =~= given.skip(k));
    } else {
        assert(given.skip(k) =~= Seq::<Number>::empty());
    }
}

/// Whether a result is the least of some numbers, which is none of those
/// where there is none or one of them is no number.
pub open spec fn is_least(r: Evaluated, given: Seq<Number>) -> bool {
    r matches Ok(ValueModel::Number(x)) && if given.len() == 0 || exists|i: int|
        0 <= i < given.len() && is_nan(#[trigger] given[i]) {
        is_nan(x)
    } else {
        given.contains(x) && forall|i: int|
            0 <= i < given.len() ==> less_or_same(x, #[trigger] given[i])
    }
}

/// Whether a result is the most of some numbers.
pub open spec fn is_most(r: Evaluated, given: Seq<Number>) -> bool {
    r matches Ok(ValueModel::Number(x)) && if given.len() == 0 || exists|i: int|
        0 <= i < given.len() && is_nan(#[trigger] given[i]) {
        is_nan(x)
    } else {
        given.contains(x) && forall|i: int|
            0 <= i < given.len() ==> less_or_same(#[trigger] given[i], x)
    }
}

proof fn lemma_extremes(s: Seq<Number>)
    ensures
        is_least(number(extreme(s, true)), s),
        is_most(number(extreme(s, false)), s),
{
    if !(s.len() == 0 || any_nan(s)) {
        lemma_least(s);
        lemma_most(s);
    }
}

/// `min` and `max` give the least and the most of the numbers that are given
/// to them, one by one or by nodes; of none, or where one of them is no
/// number, they give none.
#[verifier::rlimit(50)]
pub proof fn law_least_and_most(
    args: Seq<ExprModel>,
    given: Seq<Number>,
    a: ExprModel,
    nodes: Seq<NodeId>,
    t: Tree,
    here: Here,
    env: Surroundings,
)
    requires
        args.len() == given.len(),
        forall|i: int|
            0 <= i < args.len() ==> makes(#[trigger] args[i], given[i], t, here, env) && !(eval(
                args[i],
                t,
                here,
                env,
            )->Ok_0 is NodeSet),
        finds(a, nodes, t, here, env),
        t.all_in(nodes),
    ensures
        is_least(call_of("min"@, args, t, here, env), given),
        is_most(call_of("max"@, args, t, here, env), given),
        is_least(
            call_of("min"@, seq![a], t, here, env),
            Seq::new(nodes.len(), |i: int| number_of_text(t.string_value(nodes[i]))),
        ),
        is_most(
            call_of("max"@, seq![a], t, here, env),
            Seq::new(nodes.len(), |i: int| number_of_text(t.string_value(nodes[i]))),
        ),
{
    lemma_extremes_of_values(args, given, t, here, env);
    lemma_extremes_of_nodes(a, nodes, t, here, env);
}

#[verifier::rlimit(50)]
proof fn lemma_extremes_of_values(
    args: Seq<ExprModel>,
    given: Seq<Number>,
    t: Tree,
    here: Here,
    env: Surroundings,
)
    requires
        args.len() == given.len(),
        forall|i: int|
            0 <= i < args.len() ==> makes(#[trigger] args[i], given[i], t, here, env) && !(eval(
                args[i],
                t,
                here,
                env,
            )->Ok_0 is NodeSet),
    ensures
        is_least(call_of("min"@, args, t, here, env), given),
        is_most(call_of("max"@, args, t, here, env), given),
{
    lemma_number_names();
    lemma_call(Builtin::Min, "min"@, args, t, here, env);
    lemma_call(Builtin::Max, "max"@, args, t, here, env);
    let all = results(args, t, here, env);
    assert forall|i: int| 0 <= i < all.len() implies number_result(#[trigger] all[i], t) == Ok::<
        Number,
        Seq<char>,
    >(given[i]) && !(all[i]->Ok_0 is NodeSet) by {
        assert(all[i] == eval(args[i], t, here, env));
        assert(makes(args[i], given[i], t, here, env));
    }
    lemma_numbers_given(all, given, t, 0);
    assert(given.skip(0) =~= given);
    lemma_extremes(given);
}

proof fn lemma_numbers_of_nodes(r: Seq<Evaluated>, nodes: Seq<NodeId>, t: Tree)
    requires
        r.len() == 1,
        r[0] == Ok::<ValueModel, Seq<char>>(ValueModel::NodeSet(nodes)),
        t.all_in(nodes),
    ensures
        all_numbers(r, t, 0) == Ok::<Seq<Number>, Seq<char>>(
            Seq::new(nodes.len(), |i: int| number_of_text(t.string_value(nodes[i]))),
        ),
{
    lemma_strings(t, nodes, 0);
    let held = Seq::new(nodes.len(), |i: int| number_of_text(t.string_value(nodes[i])));
    let s = strings_from(t, nodes, 0)->Ok_0;
    assert(numbers_of_texts(s) =~= held);
    assert(all_numbers(r, t, 1) == Ok::<Seq<Number>, Seq<char>>(Seq::empty()));
    assert(held + Seq::<Number>::empty() =~= held);
}

#[verifier::rlimit(50)]
proof fn lemma_extremes_of_nodes(
    a: ExprModel,
    nodes: Seq<NodeId>,
    t: Tree,
    here: Here,
    env: Surroundings,
)
    requires
        finds(a, nodes, t, here, env),
        t.all_in(nodes),
    ensures
        is_least(
            call_of("min"@, seq![a], t, here, env),
            Seq::new(nodes.len(), |i: int| number_of_text(t.string_value(nodes[i]))),
        ),
        is_most(
            call_of("max"@, seq![a], t, here, env),
            Seq::new(nodes.len(), |i: int| number_of_text(t.string_value(nodes[i]))),
        ),
{
    lemma_number_names();
    let one = seq![a];
    assert(one[0] == a);
    lemma_call(Builtin::Min, "min"@, one, t, here, env);
    lemma_call(Builtin::Max, "max"@, one, t, here, env);
    let r = results(one, t, here, env);
    assert(r[0] == eval(a, t, here, env));
    lemma_numbers_of_nodes(r, nodes, t);
    lemma_extremes(Seq::new(nodes.len(), |i: int| number_of_text(t.string_value(nodes[i]))));
}

} // verus!
