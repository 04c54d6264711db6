//! Text as a sequence of characters: the scanning, splitting and joining that
//! the rest of the crate is written in.

use vstd::prelude::*;

pub mod laws;

verus! {

/// What `char::is_alphabetic` answers.
pub uninterp spec fn is_letter(c: char) -> bool;

/// What `char::is_alphanumeric` answers.
pub uninterp spec fn is_letter_or_digit(c: char) -> bool;

/// What `{:?}` writes for a string.
pub uninterp spec fn quoted(s: Seq<char>) -> Seq<char>;

/// A character with Unicode's White_Space property.
pub open spec fn is_white(c: char) -> bool {
    ||| '\u{9}' <= c <= '\u{d}'
    ||| c == ' '
    ||| c == '\u{85}'
    ||| c == '\u{a0}'
    ||| c == '\u{1680}'
    ||| '\u{2000}' <= c <= '\u{200a}'
    ||| c == '\u{2028}'
    ||| c == '\u{2029}'
    ||| c == '\u{202f}'
    ||| c == '\u{205f}'
    ||| c == '\u{3000}'
}

pub(crate) fn white(c: char) -> (r: bool)
    ensures
        r == is_white(c),
{
    ('\u{9}' <= c && c <= '\u{d}') || c == ' ' || c == '\u{85}' || c == '\u{a0}' || c == '\u{1680}' || (
    '\u{2000}' <= c && c <= '\u{200a}') || c == '\u{2028}' || c == '\u{2029}' || c == '\u{202f}' || c
        == '\u{205f}' || c == '\u{3000}'
}

/// `char::is_alphabetic`: whether the character has Unicode's Alphabetic
/// property. Among the ASCII characters those are the letters.
#[verifier::external_body]
pub(crate) fn letter(c: char) -> (r: bool)
    ensures
        r == is_letter(c),
        (c as u32) < 128 ==> r == ('a' <= c <= 'z' || 'A' <= c <= 'Z'),
{
    c.is_alphabetic()
}

/// `char::is_alphanumeric`: whether the character is alphabetic or numeric.
/// Among the ASCII characters those are the letters and the digits.
#[verifier::external_body]
pub(crate) fn letter_or_digit(c: char) -> (r: bool)
    ensures
        r == is_letter_or_digit(c),
        (c as u32) < 128 ==> r == ('a' <= c <= 'z' || 'A' <= c <= 'Z' || '0' <= c <= '9'),
{
    c.is_alphanumeric()
}

/// The `Debug` form of a string: in double quotes, with the characters that
/// would not read as themselves escaped. Which those are is left to std.
#[verifier::external_body]
pub(crate) fn quote(s: &str) -> (r: String)
    ensures
        r@ == quoted(s@),
{
    format!("{:?}", s)
}

/// `String::push` puts one character after the others.
pub assume_specification[ std::string::String::push ](s: &mut std::string::String, c: char)
    ensures
        final(s)@ == old(s)@.push(c),
;

/// A kind of character that a scan runs over.
#[derive(Clone, Copy, PartialEq, Eq, Structural)]
pub enum Class {
    White,
    NotWhite,
    Digit,
    DigitOrDot,
    NameChar,
    Is(char),
    Not(char),
}

pub open spec fn is_digit(c: char) -> bool {
    '0' <= c <= '9'
}

/// Whether a character is alphabetic. Of the ASCII characters only the
/// letters are; of the others, those that std says are.
pub open spec fn is_alphabetic(c: char) -> bool {
    if (c as u32) < 128 {
        'a' <= c <= 'z' || 'A' <= c <= 'Z'
    } else {
        is_letter(c)
    }
}

/// Whether a character is alphabetic or numeric. Of the ASCII characters only
/// the letters and the digits are; of the others, those that std says are.
pub open spec fn is_alphanumeric(c: char) -> bool {
    if (c as u32) < 128 {
        'a' <= c <= 'z' || 'A' <= c <= 'Z' || '0' <= c <= '9'
    } else {
        is_letter_or_digit(c)
    }
}

/// The first character of a name.
pub open spec fn starts_name(c: char) -> bool {
    is_alphabetic(c) || c == '_'
}

/// A character inside a name.
pub open spec fn continues_name(c: char) -> bool {
    is_alphanumeric(c) || c == '_' || c == '-' || c == '.'
}

pub open spec fn in_class(k: Class, c: char) -> bool {
    match k {
        Class::White => is_white(c),
        Class::NotWhite => !is_white(c),
        Class::Digit => is_digit(c),
        Class::DigitOrDot => is_digit(c) || c == '.',
        Class::NameChar => continues_name(c),
        Class::Is(d) => c == d,
        Class::Not(d) => c != d,
    }
}

/// Where the run of `k` that starts at `i` ends.
pub open spec fn span(s: Seq<char>, i: int, k: Class) -> int
    decreases s.len() - i,
{
    if 0 <= i < s.len() && in_class(k, s[i]) {
        span(s, i + 1, k)
    } else {
        i
    }
}

/// Where the run of `k` that ends before `j` begins.
pub open spec fn span_back(s: Seq<char>, j: int, k: Class) -> int
    decreases j,
{
    if 0 < j <= s.len() && in_class(k, s[j - 1]) {
        span_back(s, j - 1, k)
    } else {
        j
    }
}

pub proof fn lemma_span(s: Seq<char>, i: int, k: Class)
    requires
        0 <= i <= s.len(),
    ensures
        i <= span(s, i, k) <= s.len(),
        forall|j: int| i <= j < span(s, i, k) ==> in_class(k, #[trigger] s[j]),
        span(s, i, k) < s.len() ==> !in_class(k, s[span(s, i, k)]),
    decreases s.len() - i,
{
    if i < s.len() && in_class(k, s[i]) {
        lemma_span(s, i + 1, k);
    }
}

pub proof fn lemma_span_back(s: Seq<char>, j: int, k: Class)
    requires
        0 <= j <= s.len(),
    ensures
        0 <= span_back(s, j, k) <= j,
        forall|i: int| span_back(s, j, k) <= i < j ==> in_class(k, #[trigger] s[i]),
        span_back(s, j, k) > 0 ==> !in_class(k, s[span_back(s, j, k) - 1]),
    decreases j,
{
    if 0 < j && in_class(k, s[j - 1]) {
        lemma_span_back(s, j - 1, k);
    }
}

pub(crate) fn of_class(k: Class, c: char) -> (r: bool)
    ensures
        r == in_class(k, c),
{
    match k {
        Class::White => white(c),
        Class::NotWhite => !white(c),
        Class::Digit => '0' <= c && c <= '9',
        Class::DigitOrDot => ('0' <= c && c <= '9') || c == '.',
        Class::NameChar => letter_or_digit(c) || c == '_' || c == '-' || c == '.',
        Class::Is(d) => c == d,
        Class::Not(d) => c != d,
    }
}

pub(crate) fn end_of_run(s: &Vec<char>, i: usize, k: Class) -> (r: usize)
    requires
        i <= s@.len(),
    ensures
        r == span(s@, i as int, k),
        i <= r <= s@.len(),
{
    proof {
        lemma_span(s@, i as int, k);
    }
    let mut j: usize = i;
    while j < s.len() && of_class(k, s[j])
        invariant
            i <= j <= s@.len(),
            span(s@, i as int, k) == span(s@, j as int, k),
        decreases s@.len() - j,
    {
        j = j + 1;
    }
    j
}

pub(crate) fn start_of_run(s: &Vec<char>, j: usize, k: Class) -> (r: usize)
    requires
        j <= s@.len(),
    ensures
        r == span_back(s@, j as int, k),
        r <= j,
{
    proof {
        lemma_span_back(s@, j as int, k);
    }
    let mut i: usize = j;
    while i > 0 && of_class(k, s[i - 1])
        invariant
            i <= j <= s@.len(),
            span_back(s@, j as int, k) == span_back(s@, i as int, k),
        decreases i,
    {
        i = i - 1;
    }
    i
}

pub(crate) fn chars_of(s: &str) -> (r: Vec<char>)
    ensures
        r@ == s@,
{
    let mut out: Vec<char> = Vec::new();
    for c in it: s.chars()
        invariant
            out@ == it.seq().take(it.index() as int),
            it.seq() == s@,
    {
        out.push(c);
    }
    out
}

/// Whether two texts are the same characters in the same order.
pub(crate) fn same(a: &str, b: &str) -> (r: bool)
    ensures
        r == (a@ == b@),
{
    let x = chars_of(a);
    let y = chars_of(b);
    let n = x.len();
    if y.len() != n {
        return false;
    }
    for i in 0..n
        invariant
            x@ == a@,
            y@ == b@,
            n == x@.len(),
            n == y@.len(),
            forall|j: int| 0 <= j < i ==> x@[j] == y@[j],
    {
        if x[i] != y[i] {
            return false;
        }
    }
    assert(a@ =~= b@);
    true
}

/// The characters from `a` up to `b`.
pub(crate) fn slice(s: &Vec<char>, a: usize, b: usize) -> (r: String)
    requires
        a <= b <= s@.len(),
    ensures
        r@ == s@.subrange(a as int, b as int),
{
    let mut out = String::new();
    let mut i: usize = a;
    while i < b
        invariant
            a <= i <= b <= s@.len(),
            out@ == s@.subrange(a as int, i as int),
        decreases b - i,
    {
        out.push(s[i]);
        i = i + 1;
    }
    out
}

pub(crate) fn slice_chars(s: &Vec<char>, a: usize, b: usize) -> (r: Vec<char>)
    requires
        a <= b <= s@.len(),
    ensures
        r@ == s@.subrange(a as int, b as int),
{
    let mut out: Vec<char> = Vec::new();
    let mut i: usize = a;
    while i < b
        invariant
            a <= i <= b <= s@.len(),
            out@ == s@.subrange(a as int, i as int),
        decreases b - i,
    {
        out.push(s[i]);
        i = i + 1;
    }
    out
}

pub(crate) fn string_of(s: &Vec<char>) -> (r: String)
    ensures
        r@ == s@,
{
    let r = slice(s, 0, s.len());
    assert(s@.subrange(0, s@.len() as int) == s@);
    r
}

/// A result by what it holds.
pub open spec fn seen<T: View>(r: Result<T, String>) -> Result<T::V, Seq<char>> {
    match r {
        Ok(v) => Ok(v@),
        Err(e) => Err(e@),
    }
}

// ---------------------------------------------------------------------------
// Trimming
// ---------------------------------------------------------------------------

pub open spec fn trim_start(s: Seq<char>) -> Seq<char> {
    s.skip(span(s, 0, Class::White))
}

/// A text without the white space around it.
pub open spec fn trim(s: Seq<char>) -> Seq<char> {
    let t = trim_start(s);
    t.take(span_back(t, t.len() as int, Class::White))
}

/// A text without the run of `c` at its end.
pub open spec fn trim_end_of(s: Seq<char>, c: char) -> Seq<char> {
    s.take(span_back(s, s.len() as int, Class::Is(c)))
}

pub(crate) fn trimmed_chars(s: &Vec<char>) -> (r: Vec<char>)
    ensures
        r@ == trim(s@),
{
    let a = end_of_run(s, 0, Class::White);
    let t = slice_chars(s, a, s.len());
    assert(t@ == trim_start(s@));
    let b = start_of_run(&t, t.len(), Class::White);
    let r = slice_chars(&t, 0, b);
    assert(r@ == t@.take(b as int));
    r
}

pub(crate) fn trimmed(s: &str) -> (r: String)
    ensures
        r@ == trim(s@),
{
    let v = chars_of(s);
    let t = trimmed_chars(&v);
    string_of(&t)
}

/// Whether a text is nothing but white space.
pub open spec fn is_blank(s: Seq<char>) -> bool {
    trim(s).len() == 0
}

pub(crate) fn blank(s: &str) -> (r: bool)
    ensures
        r == is_blank(s@),
{
    let v = chars_of(s);
    let t = trimmed_chars(&v);
    t.len() == 0
}

pub(crate) fn trimmed_end_of(s: &Vec<char>, c: char) -> (r: Vec<char>)
    ensures
        r@ == trim_end_of(s@, c),
{
    let b = start_of_run(s, s.len(), Class::Is(c));
    let r = slice_chars(s, 0, b);
    assert(r@ == s@.take(b as int));
    r
}

// ---------------------------------------------------------------------------
// Splitting and joining
// ---------------------------------------------------------------------------

/// The words of a text: its runs of characters that are not white space.
pub open spec fn words(s: Seq<char>) -> Seq<Seq<char>>
    decreases s.len(),
    via words_shrink
{
    let a = span(s, 0, Class::White);
    let b = span(s, a, Class::NotWhite);
    if a >= s.len() {
        Seq::empty()
    } else {
        seq![s.subrange(a, b)] + words(s.skip(b))
    }
}

#[via_fn]
proof fn words_shrink(s: Seq<char>) {
    lemma_span(s, 0, Class::White);
    let a = span(s, 0, Class::White);
    if a < s.len() {
        lemma_span(s, a, Class::NotWhite);
        lemma_span(s, a + 1, Class::NotWhite);
    }
}

/// The pieces of a text between the occurrences of `c`.
pub open spec fn split_on(s: Seq<char>, c: char) -> Seq<Seq<char>>
    decreases s.len(),
    via split_on_shrinks
{
    let a = span(s, 0, Class::Not(c));
    if a >= s.len() {
        seq![s]
    } else {
        seq![s.take(a)] + split_on(s.skip(a + 1), c)
    }
}

#[via_fn]
proof fn split_on_shrinks(s: Seq<char>, c: char) {
    lemma_span(s, 0, Class::Not(c));
}

/// Texts one after another with `sep` between them.
pub open spec fn join(parts: Seq<Seq<char>>, sep: Seq<char>) -> Seq<char>
    decreases parts.len(),
{
    if parts.len() == 0 {
        Seq::empty()
    } else if parts.len() == 1 {
        parts[0]
    } else {
        join(parts.drop_last(), sep) + sep + parts.last()
    }
}

pub proof fn lemma_join_first(first: Seq<char>, rest: Seq<Seq<char>>, sep: Seq<char>)
    requires
        rest.len() > 0,
    ensures
        join(seq![first] + rest, sep) == first + sep + join(rest, sep),
    decreases rest.len(),
{
    let all = seq![first] + rest;
    if rest.len() == 1 {
        assert(all.drop_last() =~= seq![first]);
        assert(join(seq![first], sep) == first);
        assert(all.last() == rest[0]);
    } else {
        lemma_join_first(first, rest.drop_last(), sep);
        assert(all.drop_last() =~= seq![first] + rest.drop_last());
        assert(all.last() == rest.last());
        assert(join(all, sep) =~= first + sep + join(rest, sep));
    }
}

/// What a list of strings holds.
pub open spec fn texts(v: Seq<String>) -> Seq<Seq<char>> {
    Seq::new(v.len(), |i: int| v[i]@)
}

pub(crate) fn words_of(s: &str) -> (r: Vec<String>)
    ensures
        texts(r@) == words(s@),
{
    let v = chars_of(s);
    let mut out: Vec<String> = Vec::new();
    let mut i: usize = 0;
    let mut more = true;
    assert(v@.skip(0) == v@);
    while more
        invariant
            i <= v@.len(),
            texts(out@) + (if more { words(v@.skip(i as int)) } else { Seq::empty() }) == words(v@),
        decreases (if more { 1int } else { 0int }) + v@.len() - i,
    {
        let ghost rest = v@.skip(i as int);
        let a = end_of_run(&v, i, Class::White);
        let b = end_of_run(&v, a, Class::NotWhite);
        proof {
            lemma_span_skip(v@, i as int, 0, Class::White);
            lemma_span_skip(v@, i as int, a - i, Class::NotWhite);
            lemma_span(v@, a as int, Class::NotWhite);
            lemma_span(v@, i as int, Class::White);
        }
        if a >= v.len() {
            more = false;
        } else {
            proof {
                lemma_span(v@, a + 1, Class::NotWhite);
                assert(rest.subrange(a - i, b - i) == v@.subrange(a as int, b as int));
                assert(rest.skip(b - i) == v@.skip(b as int));
            }
            let ghost before = out@;
            out.push(slice(&v, a, b));
            assert(texts(out@) == texts(before).push(v@.subrange(a as int, b as int)));
            i = b;
        }
    }
    out
}

/// Scanning a tail is scanning the whole from where the tail begins.
pub proof fn lemma_span_skip(s: Seq<char>, k: int, i: int, class: Class)
    requires
        0 <= k <= s.len(),
        0 <= i <= s.len() - k,
    ensures
        span(s.skip(k), i, class) == span(s, k + i, class) - k,
    decreases s.len() - k - i,
{
    if k + i < s.len() && in_class(class, s[k + i]) {
        lemma_span_skip(s, k, i + 1, class);
    }
}

pub(crate) fn split(s: &str, c: char) -> (r: Vec<String>)
    ensures
        texts(r@) == split_on(s@, c),
        r@.len() > 0,
{
    let v = chars_of(s);
    let mut out: Vec<String> = Vec::new();
    let mut i: usize = 0;
    assert(v@.skip(0) == v@);
    loop
        invariant
            i <= v@.len(),
            v@ == s@,
            texts(out@) + split_on(v@.skip(i as int), c) == split_on(v@, c),
        decreases v@.len() - i,
    {
        let ghost rest = v@.skip(i as int);
        let a = end_of_run(&v, i, Class::Not(c));
        proof {
            lemma_span_skip(v@, i as int, 0, Class::Not(c));
        }
        let ghost before = out@;
        out.push(slice(&v, i, a));
        assert(texts(out@) == texts(before).push(v@.subrange(i as int, a as int)));
        if a >= v.len() {
            assert(rest == v@.subrange(i as int, a as int));
            assert(split_on(rest, c) == seq![rest]);
            assert(texts(before) + seq![rest] == texts(out@));
            return out;
        }
        proof {
            assert(rest.take(a - i) == v@.subrange(i as int, a as int));
            assert(rest.skip(a - i + 1) == v@.skip(a + 1));
            assert(texts(out@) + split_on(v@.skip(a + 1), c) == texts(before) + (seq![
                rest.take(a - i),
            ] + split_on(v@.skip(a + 1), c)));
        }
        i = a + 1;
    }
}

pub(crate) fn joined(parts: &Vec<String>, sep: &str) -> (r: String)
    ensures
        r@ == join(texts(parts@), sep@),
{
    let mut out = String::new();
    for i in 0..parts.len()
        invariant
            out@ == join(texts(parts@).take(i as int), sep@),
    {
        let ghost all = texts(parts@);
        if i > 0 {
            out.append(sep);
        }
        out.append(parts[i].as_str());
        proof {
            assert(all.take(i + 1).drop_last() == all.take(i as int));
        }
    }
    assert(texts(parts@).take(parts@.len() as int) == texts(parts@));
    out
}

// ---------------------------------------------------------------------------
// Searching
// ---------------------------------------------------------------------------

pub open spec fn occurs_at(s: Seq<char>, part: Seq<char>, i: int) -> bool {
    0 <= i && i + part.len() <= s.len() && s.subrange(i, i + part.len()) == part
}

/// Where `part` first occurs in `s` at or after `i`.
pub open spec fn find_from(s: Seq<char>, part: Seq<char>, i: int) -> Option<int>
    decreases s.len() - i + 1,
{
    if i < 0 || i > s.len() {
        None
    } else if occurs_at(s, part, i) {
        Some(i)
    } else {
        find_from(s, part, i + 1)
    }
}

pub open spec fn find(s: Seq<char>, part: Seq<char>) -> Option<int> {
    find_from(s, part, 0)
}

pub open spec fn begins_with(s: Seq<char>, part: Seq<char>) -> bool {
    occurs_at(s, part, 0)
}

pub open spec fn finishes_with(s: Seq<char>, part: Seq<char>) -> bool {
    part.len() <= s.len() && occurs_at(s, part, s.len() - part.len())
}

pub(crate) fn occurs(s: &Vec<char>, part: &Vec<char>, i: usize) -> (r: bool)
    ensures
        r == occurs_at(s@, part@, i as int),
{
    if i > s.len() || part.len() > s.len() - i {
        return false;
    }
    let n = s.len();
    let mut j: usize = 0;
    while j < part.len()
        invariant
            n == s@.len(),
            i + part@.len() <= n,
            j <= part@.len(),
            forall|h: int| 0 <= h < j ==> s@[i + h] == part@[h],
        decreases part@.len() - j,
    {
        if s[i + j] != part[j] {
            assert(s@.subrange(i as int, i + part@.len())[j as int] != part@[j as int]);
            return false;
        }
        j = j + 1;
    }
    assert(s@.subrange(i as int, i + part@.len()) == part@);
    true
}

pub open spec fn as_int(r: Option<usize>) -> Option<int> {
    match r {
        Some(i) => Some(i as int),
        None => None,
    }
}

pub(crate) fn found(s: &Vec<char>, part: &Vec<char>) -> (r: Option<usize>)
    ensures
        as_int(r) == find(s@, part@),
        r matches Some(i) ==> i + part@.len() <= s@.len(),
{
    let mut i: usize = 0;
    while i < s.len()
        invariant
            i <= s@.len(),
            find(s@, part@) == find_from(s@, part@, i as int),
        decreases s@.len() - i,
    {
        if occurs(s, part, i) {
            return Some(i);
        }
        i = i + 1;
    }
    proof {
        reveal_with_fuel(find_from, 2);
    }
    if occurs(s, part, i) {
        Some(i)
    } else {
        None
    }
}

pub(crate) fn starts(s: &str, part: &str) -> (r: bool)
    ensures
        r == begins_with(s@, part@),
{
    let a = chars_of(s);
    let b = chars_of(part);
    occurs(&a, &b, 0)
}

pub(crate) fn ends(s: &str, part: &str) -> (r: bool)
    ensures
        r == finishes_with(s@, part@),
{
    let a = chars_of(s);
    let b = chars_of(part);
    if b.len() > a.len() {
        return false;
    }
    occurs(&a, &b, a.len() - b.len())
}

pub(crate) fn holds(s: &str, part: &str) -> (r: bool)
    ensures
        r == (find(s@, part@) is Some),
{
    let a = chars_of(s);
    let b = chars_of(part);
    found(&a, &b).is_some()
}

/// `s` with every occurrence of `from` put as `to`, left to right.
pub open spec fn replace_all(s: Seq<char>, from: Seq<char>, to: Seq<char>) -> Seq<char>
    decreases s.len(),
{
    if s.len() == 0 || from.len() == 0 {
        s
    } else if begins_with(s, from) {
        to + replace_all(s.skip(from.len() as int), from, to)
    } else {
        seq![s[0]] + replace_all(s.skip(1), from, to)
    }
}

pub(crate) fn replaced(s: &Vec<char>, from: &str, to: &str) -> (r: Vec<char>)
    requires
        from@.len() > 0,
    ensures
        r@ == replace_all(s@, from@, to@),
{
    let f = chars_of(from);
    let t = chars_of(to);
    let mut out: Vec<char> = Vec::new();
    let mut i: usize = 0;
    assert(s@.skip(0) == s@);
    while i < s.len()
        invariant
            i <= s@.len(),
            f@ == from@,
            t@ == to@,
            f@.len() > 0,
            out@ + replace_all(s@.skip(i as int), from@, to@) == replace_all(s@, from@, to@),
        decreases s@.len() - i,
    {
        let ghost rest = s@.skip(i as int);
        let hit = occurs(s, &f, i);
        proof {
            if i + f@.len() <= s@.len() {
                assert(rest.subrange(0, f@.len() as int) == s@.subrange(i as int, i + f@.len()));
            }
            assert(hit == begins_with(rest, from@));
        }
        if hit {
            assert(rest.skip(f@.len() as int) == s@.skip(i + f@.len()));
            let ghost before = out@;
            let mut j: usize = 0;
            while j < t.len()
                invariant
                    j <= t@.len(),
                    out@ == before + t@.take(j as int),
                decreases t@.len() - j,
            {
                out.push(t[j]);
                j = j + 1;
            }
            assert(out@ == before + to@);
            i = i + f.len();
        } else {
            assert(rest.skip(1) == s@.skip(i + 1));
            let ghost before = out@;
            out.push(s[i]);
            assert(out@ == before + seq![rest[0]]);
            i = i + 1;
        }
    }
    assert(s@.skip(i as int) == Seq::<char>::empty());
    out
}

/// What follows the last `c`, or the whole text without one.
pub open spec fn after_last(s: Seq<char>, c: char) -> Seq<char> {
    s.skip(span_back(s, s.len() as int, Class::Not(c)))
}

pub(crate) fn past_last(s: &str, c: char) -> (r: String)
    ensures
        r@ == after_last(s@, c),
{
    let v = chars_of(s);
    let a = start_of_run(&v, v.len(), Class::Not(c));
    slice(&v, a, v.len())
}

// ---------------------------------------------------------------------------
// Putting texts together
// ---------------------------------------------------------------------------

pub(crate) fn cat2(a: &str, b: &str) -> (r: String)
    ensures
        r@ == a@ + b@,
{
    let mut s = String::new();
    s.append(a);
    s.append(b);
    s
}

pub(crate) fn cat3(a: &str, b: &str, c: &str) -> (r: String)
    ensures
        r@ == a@ + b@ + c@,
{
    let mut s = String::new();
    s.append(a);
    s.append(b);
    s.append(c);
    s
}

pub(crate) fn cat4(a: &str, b: &str, c: &str, d: &str) -> (r: String)
    ensures
        r@ == a@ + b@ + c@ + d@,
{
    let mut s = cat3(a, b, c);
    s.append(d);
    s
}

pub(crate) fn cat5(a: &str, b: &str, c: &str, d: &str, e: &str) -> (r: String)
    ensures
        r@ == a@ + b@ + c@ + d@ + e@,
{
    let mut s = cat4(a, b, c, d);
    s.append(e);
    s
}

pub(crate) fn cat6(a: &str, b: &str, c: &str, d: &str, e: &str, f: &str) -> (r: String)
    ensures
        r@ == a@ + b@ + c@ + d@ + e@ + f@,
{
    let mut s = cat5(a, b, c, d, e);
    s.append(f);
    s
}

// ---------------------------------------------------------------------------
// Whole numbers as text
// ---------------------------------------------------------------------------

pub open spec fn digit_char(d: int) -> char {
    (48 + d) as char
}

/// A whole number in decimal.
pub open spec fn decimal(n: nat) -> Seq<char>
    decreases n,
{
    if n < 10 {
        seq![digit_char(n as int)]
    } else {
        decimal(n / 10).push(digit_char((n % 10) as int))
    }
}

/// A whole number in decimal, after a minus sign where it is below zero.
pub open spec fn signed_decimal(n: int) -> Seq<char> {
    if n < 0 {
        "-"@ + decimal((-n) as nat)
    } else {
        decimal(n as nat)
    }
}

/// A text with zeros put before it until it has `width` characters.
pub open spec fn zero_padded(s: Seq<char>, width: nat) -> Seq<char> {
    if s.len() >= width {
        s
    } else {
        Seq::new((width - s.len()) as nat, |i: int| '0') + s
    }
}

pub(crate) fn digit(d: u8) -> (c: char)
    requires
        d < 10,
    ensures
        c == digit_char(d as int),
        c as int == 48 + d,
{
    (48u8 + d) as char
}

pub(crate) fn decimal_text(n: u64) -> (r: String)
    ensures
        r@ == decimal(n as nat),
    decreases n,
{
    if n < 10 {
        let mut s = String::new();
        s.push(digit(n as u8));
        assert(s@ == seq![digit_char(n as int)]);
        s
    } else {
        let mut s = decimal_text(n / 10);
        s.push(digit((n % 10) as u8));
        s
    }
}

pub(crate) fn count_text(n: usize) -> (r: String)
    ensures
        r@ == decimal(n as nat),
{
    decimal_text(n as u64)
}

pub(crate) fn padded(s: &str, width: usize) -> (r: String)
    ensures
        r@ == zero_padded(s@, width as nat),
{
    let v = chars_of(s);
    if v.len() >= width {
        return string_of(&v);
    }
    let mut out = String::new();
    let mut i: usize = 0;
    let n = width - v.len();
    while i < n
        invariant
            i <= n,
            out@ == Seq::new(i as nat, |j: int| '0'),
        decreases n - i,
    {
        out.push('0');
        i = i + 1;
    }
    out.append(s);
    out
}

/// The whole number a run of digits writes.
pub open spec fn digits_value(s: Seq<char>) -> nat
    decreases s.len(),
{
    if s.len() == 0 {
        0
    } else {
        digits_value(s.drop_last()) * 10 + (s.last() as nat - 48) as nat
    }
}

pub open spec fn all_digits(s: Seq<char>) -> bool {
    forall|i: int| 0 <= i < s.len() ==> is_digit(#[trigger] s[i])
}

/// The whole number up to `max` that a text writes: digits, after a plus
/// sign or none.
pub open spec fn parse_whole(s: Seq<char>, max: nat) -> Option<nat> {
    let body = if s.len() > 1 && s[0] == '+' {
        s.skip(1)
    } else {
        s
    };
    if body.len() > 0 && all_digits(body) && digits_value(body) <= max {
        Some(digits_value(body))
    } else {
        None
    }
}

proof fn lemma_digits_prefix(s: Seq<char>, n: int)
    requires
        0 <= n <= s.len(),
    ensures
        digits_value(s.take(n)) <= digits_value(s),
    decreases s.len(),
{
    if n < s.len() {
        lemma_digits_prefix(s.drop_last(), n);
        assert(s.drop_last().take(n) == s.take(n));
    } else {
        assert(s.take(n) == s);
    }
}

pub open spec fn as_nat(r: Option<u64>) -> Option<nat> {
    match r {
        Some(n) => Some(n as nat),
        None => None,
    }
}

pub(crate) fn whole(s: &str, max: u64) -> (r: Option<u64>)
    ensures
        as_nat(r) == parse_whole(s@, max as nat),
{
    let v = chars_of(s);
    let start: usize = if v.len() > 1 && v[0] == '+' {
        1
    } else {
        0
    };
    let ghost body = if v@.len() > 1 && v@[0] == '+' {
        v@.skip(1)
    } else {
        v@
    };
    assert(body == v@.skip(start as int));
    if start >= v.len() {
        return None;
    }
    let mut i: usize = start;
    let mut n: u64 = 0;
    while i < v.len()
        invariant
            start <= i <= v@.len(),
            body == v@.skip(start as int),
            body.len() > 0,
            parse_whole(v@, max as nat) == (if all_digits(body) && digits_value(body) <= max {
                Some(digits_value(body))
            } else {
                None
            }),
            s@ == v@,
            n == digits_value(body.take(i - start)),
            n <= max,
            forall|j: int| 0 <= j < i - start ==> is_digit(#[trigger] body[j]),
        decreases v@.len() - i,
    {
        let c = v[i];
        assert(c == body[i - start]);
        if !('0' <= c && c <= '9') {
            return None;
        }
        let d = c as u64 - 48;
        proof {
            assert(body.take(i - start + 1).drop_last() == body.take(i - start));
            lemma_digits_prefix(body, i - start + 1);
        }
        if d > max || n > (max - d) / 10 {
            assert(n * 10 + d > max);
            return None;
        }
        n = n * 10 + d;
        i = i + 1;
    }
    assert(body.take(i - start) == body);
    Some(n)
}

} // verus!
