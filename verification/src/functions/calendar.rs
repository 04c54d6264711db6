//! How dates are read and written, by their digits.

use crate::eval::{Here, Surroundings};
use crate::functions::dates::{
    clock_of, first_of, formatted_from, parse_iso, part, small, DateParts,
};
use crate::functions::laws::{call_of, lemma_call, says, text, verdict};
use crate::functions::names::lemma_other_names;
use crate::functions::pattern::{regex_error, regex_is_match};
use crate::functions::Builtin;
use crate::number::decimal::{lemma_decimal, lemma_digits_join};
use crate::parser::ast::ExprModel;
use crate::text::laws::{law_split_undoes_join, law_trim_takes_off_white_space, lemma_span_is};
use crate::text::{
    all_digits, decimal, digits_value, is_blank, is_digit, is_white, join, lemma_span_back,
    parse_whole, span_back, split_on, zero_padded, Class,
};
use crate::tree::Tree;
use vstd::prelude::*;

verus! {

/// Whether a text is a number by its digits, up to some number.
pub open spec fn writes(s: Seq<char>, n: nat, max: nat) -> bool {
    s.len() > 0 && all_digits(s) && digits_value(s) == n && n <= max
}

/// A day, by its year, month and day.
pub open spec fn day_text(year: Seq<char>, month: Seq<char>, day: Seq<char>) -> Seq<char> {
    join(seq![year, month, day], seq!['-'])
}

/// A time of day, to a fraction of a second.
pub open spec fn clock_text(
    hour: Seq<char>,
    minute: Seq<char>,
    second: Seq<char>,
    fraction: Seq<char>,
) -> Seq<char> {
    join(seq![hour, minute, second + seq!['.'] + fraction], seq![':'])
}

/// Whether a text is an offset from universal time, or none: behind `Z`, a
/// plus sign or a minus sign.
pub open spec fn is_offset(s: Seq<char>) -> bool {
    s.len() == 0 || (!is_white(s.last()) && (s[0] == '+' || s[0] == 'Z' || s[0] == 'z' || (s[0]
        == '-' && forall|i: int|
        1 <= i < s.len() ==> #[trigger] s[i] != '-' && s[i] != '+' && s[i] != 'Z' && s[i]
            != 'z')))
}

proof fn lemma_whole(s: Seq<char>, n: nat, max: nat)
    requires
        writes(s, n, max),
    ensures
        parse_whole(s, max) == Some(n),
        forall|i: int| 0 <= i < s.len() ==> '0' <= #[trigger] s[i] <= '9',
        !is_white(s[0]),
        !is_white(s.last()),
{
    assert(is_digit(s[0]));
    assert(is_digit(s[s.len() - 1]));
    assert forall|i: int| 0 <= i < s.len() implies '0' <= #[trigger] s[i] <= '9' by {
        assert(is_digit(s[i]));
    }
}

proof fn lemma_join_three(a: Seq<char>, b: Seq<char>, c: Seq<char>, d: char)
    ensures
        join(seq![a, b, c], seq![d]) == a + seq![d] + b + seq![d] + c,
{
    let s = seq![a, b, c];
    let two = seq![a, b];
    let one = seq![a];
    assert(s.drop_last() =~= two);
    assert(two.drop_last() =~= one);
    assert(join(one, seq![d]) == a) by {
        reveal_with_fuel(join, 2);
    }
    assert(join(two, seq![d]) == a + seq![d] + b);
}

proof fn lemma_first_of(s: Seq<char>, chars: Seq<char>, i: int, k: int)
    requires
        0 <= i <= k <= s.len(),
        forall|j: int| i <= j < k ==> !chars.contains(#[trigger] s[j]),
        k < s.len() ==> chars.contains(s[k]),
    ensures
        first_of(s, chars, i) == k,
    decreases k - i,
{
    if i < k {
        assert(!chars.contains(s[i]));
        lemma_first_of(s, chars, i + 1, k);
    }
}

/// The characters of a day are digits and dashes.
proof fn lemma_day(
    year: Seq<char>,
    month: Seq<char>,
    day: Seq<char>,
    y: nat,
    m: nat,
    d: nat,
)
    requires
        writes(year, y, i64::MAX as nat),
        writes(month, m, u32::MAX as nat),
        writes(day, d, u32::MAX as nat),
    ensures
        ({
            let s = day_text(year, month, day);
            &&& s == year + seq!['-'] + month + seq!['-'] + day
            &&& s.len() > 0
            &&& !is_white(s[0])
            &&& !is_white(s.last())
            &&& forall|i: int| 0 <= i < s.len() ==> #[trigger] s[i] != 'T' && s[i] != ' '
            &&& split_on(s, '-') == seq![year, month, day]
        }),
{
    let s = day_text(year, month, day);
    lemma_whole(year, y, i64::MAX as nat);
    lemma_whole(month, m, u32::MAX as nat);
    lemma_whole(day, d, u32::MAX as nat);
    lemma_join_three(year, month, day, '-');
    let parts = seq![year, month, day];
    assert forall|i: int| 0 <= i < parts.len() implies !(#[trigger] parts[i]).contains('-') by {
        let p = parts[i];
        if p.contains('-') {
            let k = choose|k: int| 0 <= k < p.len() && p[k] == '-';
            assert('0' <= p[k] <= '9');
        }
    }
    law_split_undoes_join(parts, '-');
    let a = year.len() as int;
    let b = a + 1 + month.len();
    assert(s[0] == year[0]);
    assert(s.last() == day.last());
    assert forall|i: int| 0 <= i < s.len() implies #[trigger] s[i] != 'T' && s[i] != ' ' by {
        if i < a {
            assert(s[i] == year[i]);
        } else if i == a {
            assert(s[i] == '-');
        } else if i < b {
            assert(s[i] == month[i - a - 1]);
        } else if i == b {
            assert(s[i] == '-');
        } else {
            assert(s[i] == day[i - b - 1]);
        }
    }
}

/// A day by its digits is read as that day, at midnight.
#[verifier::rlimit(50)]
pub proof fn law_days_are_read(
    year: Seq<char>,
    month: Seq<char>,
    day: Seq<char>,
    y: nat,
    m: nat,
    d: nat,
)
    requires
        writes(year, y, i64::MAX as nat),
        writes(month, m, 12),
        writes(day, d, 31),
        m >= 1,
        d >= 1,
    ensures
        parse_iso(day_text(year, month, day)) == Some(
            DateParts {
                year: y as u64,
                month: m as u64,
                day: d as u64,
                hour: 0,
                minute: 0,
                second: 0,
                millisecond: 0,
            },
        ),
{
    let s = day_text(year, month, day);
    lemma_day(year, month, day, y, m, d);
    lemma_whole(year, y, i64::MAX as nat);
    lemma_whole(month, m, u32::MAX as nat);
    lemma_whole(day, d, u32::MAX as nat);
    let none = Seq::<char>::empty();
    law_trim_takes_off_white_space(none, s, none);
    assert(none + s + none =~= s);
    lemma_first_of(s, seq!['T', ' '], 0, s.len() as int);
    assert(s.take(s.len() as int) =~= s);
    assert(small(none) is None);
    lemma_span_is(none, 0, 0, Class::Not('.'));
}

/// What is not a month or a day of a month is not read.
#[verifier::rlimit(50)]
pub proof fn law_impossible_days_are_refused(
    year: Seq<char>,
    month: Seq<char>,
    day: Seq<char>,
    y: nat,
    m: nat,
    d: nat,
)
    requires
        writes(year, y, i64::MAX as nat),
        writes(month, m, u32::MAX as nat),
        writes(day, d, u32::MAX as nat),
        m < 1 || m > 12 || d < 1 || d > 31,
    ensures
        parse_iso(day_text(year, month, day)) is None,
{
    let s = day_text(year, month, day);
    lemma_day(year, month, day, y, m, d);
    lemma_whole(year, y, i64::MAX as nat);
    lemma_whole(month, m, u32::MAX as nat);
    lemma_whole(day, d, u32::MAX as nat);
    let none = Seq::<char>::empty();
    law_trim_takes_off_white_space(none, s, none);
    assert(none + s + none =~= s);
    lemma_first_of(s, seq!['T', ' '], 0, s.len() as int);
    assert(s.take(s.len() as int) =~= s);
}

proof fn lemma_clock(
    hour: Seq<char>,
    minute: Seq<char>,
    second: Seq<char>,
    fraction: Seq<char>,
    h: nat,
    m: nat,
    s: nat,
    f: nat,
    offset: Seq<char>,
)
    requires
        writes(hour, h, u32::MAX as nat),
        writes(minute, m, u32::MAX as nat),
        writes(second, s, u32::MAX as nat),
        writes(fraction, f, u32::MAX as nat),
        is_offset(offset),
    ensures
        ({
            let c = clock_text(hour, minute, second, fraction);
            &&& c.len() > 0
            &&& !is_white(c.last())
            &&& clock_of(c + offset) == c
            &&& split_on(c, ':') == seq![hour, minute, second + seq!['.'] + fraction]
        }),
{
    lemma_whole(hour, h, u32::MAX as nat);
    lemma_whole(minute, m, u32::MAX as nat);
    lemma_whole(second, s, u32::MAX as nat);
    lemma_whole(fraction, f, u32::MAX as nat);
    let last = second + seq!['.'] + fraction;
    let parts = seq![hour, minute, last];
    let c = clock_text(hour, minute, second, fraction);
    lemma_join_three(hour, minute, last, ':');
    assert forall|i: int| 0 <= i < last.len() implies (#[trigger] last[i] == '.' || '0' <= last[i]
        <= '9') by {
        if i < second.len() {
            assert(last[i] == second[i]);
        } else if i > second.len() {
            assert(last[i] == fraction[i - second.len() - 1]);
        }
    }
    assert forall|i: int| 0 <= i < parts.len() implies !(#[trigger] parts[i]).contains(':') by {
        let p = parts[i];
        if p.contains(':') {
            let k = choose|k: int| 0 <= k < p.len() && p[k] == ':';
            assert(p[k] == '.' || '0' <= p[k] <= '9');
        }
    }
    law_split_undoes_join(parts, ':');
    let a = hour.len() as int;
    let b = a + 1 + minute.len();
    assert forall|i: int| 0 <= i < c.len() implies #[trigger] c[i] != '-' && c[i] != '+' && c[i]
        != 'Z' && c[i] != 'z' by {
        if i < a {
            assert(c[i] == hour[i]);
        } else if i == a {
            assert(c[i] == ':');
        } else if i < b {
            assert(c[i] == minute[i - a - 1]);
        } else if i == b {
            assert(c[i] == ':');
        } else {
            assert(c[i] == last[i - b - 1]);
        }
    }
    assert(c.last() == fraction.last());
    let marks = seq!['+', 'Z', 'z'];
    assert(marks[0] == '+' && marks[1] == 'Z' && marks[2] == 'z');
    assert forall|x: char| #[trigger] marks.contains(x) implies x == '+' || x == 'Z' || x == 'z' by {}
    let whole = c + offset;
    if offset.len() > 0 && offset[0] == '-' {
        let n = whole.len() as int;
        assert forall|j: int| 0 <= j < n implies !marks.contains(#[trigger] whole[j]) by {
            if j < c.len() {
                assert(whole[j] == c[j]);
            } else {
                assert(whole[j] == offset[j - c.len()]);
            }
        }
        lemma_first_of(whole, marks, 0, n);
        let head = whole.take(n);
        assert(head =~= whole);
        let dash = span_back(head, n, Class::Not('-'));
        lemma_span_back(head, n, Class::Not('-'));
        assert(head[c.len() as int] == '-');
        assert(!crate::text::in_class(Class::Not('-'), head[c.len() as int]));
        assert(dash > c.len());
        if dash > c.len() + 1 {
            assert(head[dash - 1] == offset[dash - 1 - c.len()]);
        }
        assert(head.take(dash - 1) =~= c);
    } else {
        let k = c.len() as int;
        assert forall|j: int| 0 <= j < k implies !marks.contains(#[trigger] whole[j]) by {
            assert(whole[j] == c[j]);
        }
        if k < whole.len() {
            assert(whole[k] == offset[0]);
            assert(marks.contains(whole[k]));
        }
        lemma_first_of(whole, marks, 0, k);
        let head = whole.take(k);
        assert(head =~= c);
        lemma_span_back(head, k, Class::Not('-'));
        let dash = span_back(head, k, Class::Not('-'));
        if dash > 0 {
            assert(head[dash - 1] == c[dash - 1]);
        }
    }
}

/// A day with a time behind it is read as that time of that day, to the
/// thousandth of a second, whatever the offset behind it says.
#[verifier::rlimit(50)]
pub proof fn law_times_are_read(
    year: Seq<char>,
    month: Seq<char>,
    day: Seq<char>,
    y: nat,
    m: nat,
    d: nat,
    mark: char,
    hour: Seq<char>,
    minute: Seq<char>,
    second: Seq<char>,
    fraction: Seq<char>,
    h: nat,
    min: nat,
    s: nat,
    f: nat,
    offset: Seq<char>,
)
    requires
        writes(year, y, i64::MAX as nat),
        writes(month, m, 12),
        writes(day, d, 31),
        m >= 1,
        d >= 1,
        mark == 'T' || mark == ' ',
        writes(hour, h, u32::MAX as nat),
        writes(minute, min, u32::MAX as nat),
        writes(second, s, u32::MAX as nat),
        writes(fraction, f, u32::MAX as nat),
        fraction.len() == 3,
        is_offset(offset),
    ensures
        parse_iso(
            day_text(year, month, day) + seq![mark] + (clock_text(hour, minute, second, fraction)
                + offset),
        ) == Some(
            DateParts {
                year: y as u64,
                month: m as u64,
                day: d as u64,
                hour: h as u64,
                minute: min as u64,
                second: s as u64,
                millisecond: f as u64,
            },
        ),
{
    let date = day_text(year, month, day);
    let clock = clock_text(hour, minute, second, fraction);
    lemma_day(year, month, day, y, m, d);
    lemma_clock(hour, minute, second, fraction, h, min, s, f, offset);
    lemma_whole(year, y, i64::MAX as nat);
    lemma_whole(month, m, u32::MAX as nat);
    lemma_whole(day, d, u32::MAX as nat);
    lemma_whole(hour, h, u32::MAX as nat);
    lemma_whole(minute, min, u32::MAX as nat);
    lemma_whole(second, s, u32::MAX as nat);
    lemma_whole(fraction, f, u32::MAX as nat);
    let rest = clock + offset;
    let all = date + seq![mark] + rest;
    let cut = date.len() as int;
    let none = Seq::<char>::empty();
    assert(all[0] == date[0]);
    if offset.len() > 0 {
        assert(all.last() == offset.last());
    } else {
        assert(all.last() == clock.last());
    }
    law_trim_takes_off_white_space(none, all, none);
    assert(none + all + none =~= all);
    let marks = seq!['T', ' '];
    assert(marks[0] == 'T' && marks[1] == ' ');
    assert(all[cut] == mark);
    assert(marks.contains(mark));
    assert forall|j: int| 0 <= j < cut implies !marks.contains(#[trigger] all[j]) by {
        assert(all[j] == date[j]);
    }
    lemma_first_of(all, marks, 0, cut);
    assert(all.take(cut) =~= date);
    assert(all.skip(cut + 1) =~= rest);
    let seconds = second + seq!['.'] + fraction;
    let n = second.len() as int;
    assert forall|x: int| 0 <= x < n implies crate::text::in_class(
        Class::Not('.'),
        #[trigger] seconds[x],
    ) by {
        assert(seconds[x] == second[x]);
    }
    assert(seconds[n] == '.');
    lemma_span_is(seconds, 0, n, Class::Not('.'));
    assert(seconds.take(n) =~= second);
    assert(seconds.skip(n + 1) =~= fraction);
    assert(fraction + Seq::new(0, |i: int| '0') =~= fraction);
    let parts = seq![hour, minute, seconds];
    assert(part(parts, 0) == hour && part(parts, 1) == minute && part(parts, 2) == seconds);
}

// ---------------------------------------------------------------------------
// Writing
// ---------------------------------------------------------------------------

proof fn lemma_zeros(k: nat)
    ensures
        digits_value(Seq::new(k, |i: int| '0')) == 0,
    decreases k,
{
    let s = Seq::new(k, |i: int| '0');
    if k > 0 {
        assert(s.drop_last() =~= Seq::new((k - 1) as nat, |i: int| '0'));
        lemma_zeros((k - 1) as nat);
    }
}

/// Zeros before a number do not change it.
#[verifier::rlimit(50)]
pub proof fn law_padded_numbers_are_the_same(n: nat, width: nat)
    ensures
        writes(zero_padded(decimal(n), width), n, n),
        zero_padded(decimal(n), width).len() >= width,
{
    let s = decimal(n);
    lemma_decimal(n);
    if s.len() < width {
        let k = (width - s.len()) as nat;
        let z = Seq::new(k, |i: int| '0');
        lemma_zeros(k);
        lemma_digits_join(z, s);
        let all = z + s;
        assert forall|i: int| 0 <= i < all.len() implies is_digit(#[trigger] all[i]) by {
            if i >= k {
                assert(all[i] == s[i - k]);
            }
        }
        assert(0 * crate::number::decimal::ten_to(s.len()) == 0);
    }
}

/// Under a code, a date is written as the part that the code stands for.
#[verifier::rlimit(50)]
pub proof fn law_date_codes(
    a: ExprModel,
    b: ExprModel,
    s: Seq<char>,
    code: char,
    parts: DateParts,
    t: Tree,
    here: Here,
    env: Surroundings,
)
    requires
        says(a, s, t, here, env),
        says(b, seq!['%', code], t, here, env),
        !is_blank(s),
        parse_iso(s) == Some(parts),
    ensures
        ({
            let r = call_of("format-date"@, seq![a, b], t, here, env);
            &&& r == call_of("format-date-time"@, seq![a, b], t, here, env)
            &&& code == 'Y' ==> r == text(zero_padded(decimal(parts.year as nat), 4))
            &&& code == 'y' ==> r == text(zero_padded(decimal((parts.year % 100) as nat), 2))
            &&& code == 'm' ==> r == text(zero_padded(decimal(parts.month as nat), 2))
            &&& code == 'n' ==> r == text(decimal(parts.month as nat))
            &&& code == 'd' ==> r == text(zero_padded(decimal(parts.day as nat), 2))
            &&& code == 'e' ==> r == text(decimal(parts.day as nat))
            &&& code == 'H' ==> r == text(zero_padded(decimal(parts.hour as nat), 2))
            &&& code == 'h' ==> r == text(decimal(parts.hour as nat))
            &&& code == 'M' ==> r == text(zero_padded(decimal(parts.minute as nat), 2))
            &&& code == 'S' ==> r == text(zero_padded(decimal(parts.second as nat), 2))
            &&& code == '3' ==> r == text(zero_padded(decimal(parts.millisecond as nat), 3))
            &&& code == '%' ==> r == text(seq!['%'])
            &&& code == 'a' || code == 'b' ==> r is Err
        }),
{
    lemma_other_names();
    reveal_strlit("%");
    let args = seq![a, b];
    assert(args[0] == a && args[1] == b);
    lemma_call(Builtin::FormatDate, "format-date"@, args, t, here, env);
    lemma_call(Builtin::FormatDate, "format-date-time"@, args, t, here, env);
    let format = seq!['%', code];
    assert(format[0] == '%' && format[1] == code);
    reveal_with_fuel(formatted_from, 3);
    assert("%"@ =~= seq!['%']);
    let r = formatted_from(parts, format, 0);
    if let Ok(x) = crate::functions::dates::code_text(parts, code) {
        assert(x + Seq::<char>::empty() =~= x);
        assert(r == Ok::<Seq<char>, Seq<char>>(x));
    }
}

proof fn lemma_formats(parts: DateParts, p: Seq<char>, q: Seq<char>, i: int)
    requires
        0 <= i <= p.len(),
        formatted_from(parts, p, i) is Ok,
    ensures
        formatted_from(parts, p + q, i) == match formatted_from(parts, q, 0) {
            Ok(y) => Ok(formatted_from(parts, p, i)->Ok_0 + y),
            Err(e) => Err(e),
        },
    decreases p.len() - i,
{
    let all = p + q;
    if i >= p.len() {
        lemma_behind(parts, p, q, 0);
        if let Ok(y) = formatted_from(parts, q, 0) {
            assert(Seq::<char>::empty() + y =~= y);
        }
    } else {
        assert(all[i] == p[i]);
        if p[i] != '%' {
            lemma_formats(parts, p, q, i + 1);
            if let (Ok(x), Ok(y)) = (
                formatted_from(parts, p, i + 1),
                formatted_from(parts, q, 0),
            ) {
                assert(seq![p[i]] + (x + y) =~= (seq![p[i]] + x) + y);
            }
        } else {
            assert(all[i + 1] == p[i + 1]);
            lemma_formats(parts, p, q, i + 2);
            let c = crate::functions::dates::code_text(parts, p[i + 1])->Ok_0;
            if let (Ok(x), Ok(y)) = (
                formatted_from(parts, p, i + 2),
                formatted_from(parts, q, 0),
            ) {
                assert(c + (x + y) =~= (c + x) + y);
            }
        }
    }
}

proof fn lemma_behind(parts: DateParts, p: Seq<char>, q: Seq<char>, i: int)
    requires
        0 <= i,
    ensures
        formatted_from(parts, p + q, p.len() + i) == formatted_from(parts, q, i),
    decreases q.len() - i,
{
    if i < q.len() {
        assert((p + q)[p.len() + i] == q[i]);
        lemma_behind(parts, p, q, i + 1);
        if i + 1 < q.len() {
            assert((p + q)[p.len() + i + 1] == q[i + 1]);
            lemma_behind(parts, p, q, i + 2);
        }
    }
}

proof fn lemma_format_call(
    a: ExprModel,
    b: ExprModel,
    s: Seq<char>,
    format: Seq<char>,
    parts: DateParts,
    t: Tree,
    here: Here,
    env: Surroundings,
)
    requires
        says(a, s, t, here, env),
        says(b, format, t, here, env),
        !is_blank(s),
        parse_iso(s) == Some(parts),
    ensures
        call_of("format-date"@, seq![a, b], t, here, env) == match formatted_from(
            parts,
            format,
            0,
        ) {
            Ok(x) => text(x),
            Err(e) => Err(e),
        },
{
    lemma_other_names();
    let args = seq![a, b];
    assert(args[0] == a && args[1] == b);
    lemma_call(Builtin::FormatDate, "format-date"@, args, t, here, env);
}

/// A format is followed from left to right: under one format behind another,
/// a date is written under the first and then under the second. What is no
/// code stands for itself.
#[verifier::rlimit(50)]
pub proof fn law_formats_run_on(
    a: ExprModel,
    b: ExprModel,
    c: ExprModel,
    all: ExprModel,
    s: Seq<char>,
    p: Seq<char>,
    q: Seq<char>,
    x: Seq<char>,
    y: Seq<char>,
    parts: DateParts,
    t: Tree,
    here: Here,
    env: Surroundings,
)
    requires
        says(a, s, t, here, env),
        says(b, p, t, here, env),
        says(c, q, t, here, env),
        says(all, p + q, t, here, env),
        !is_blank(s),
        parse_iso(s) == Some(parts),
        call_of("format-date"@, seq![a, b], t, here, env) == text(x),
        call_of("format-date"@, seq![a, c], t, here, env) == text(y),
    ensures
        call_of("format-date"@, seq![a, all], t, here, env) == text(x + y),
        p.len() == 1 && p[0] != '%' ==> x == p,
{
    lemma_format_call(a, b, s, p, parts, t, here, env);
    lemma_format_call(a, c, s, q, parts, t, here, env);
    lemma_format_call(a, all, s, p + q, parts, t, here, env);
    assert(formatted_from(parts, p, 0) == Ok::<Seq<char>, Seq<char>>(x));
    lemma_formats(parts, p, q, 0);
    if p.len() == 1 && p[0] != '%' {
        reveal_with_fuel(formatted_from, 2);
        assert(seq![p[0]] + Seq::<char>::empty() =~= p);
    }
}

/// What is not asked has no date: nothing comes of nothing.
#[verifier::rlimit(50)]
pub proof fn law_no_date_is_no_date(
    a: ExprModel,
    b: ExprModel,
    s: Seq<char>,
    t: Tree,
    here: Here,
    env: Surroundings,
)
    requires
        says(a, s, t, here, env),
    ensures
        is_blank(s) ==> call_of("format-date"@, seq![a, b], t, here, env) == text(Seq::empty()),
        !is_blank(s) && parse_iso(s) is None ==> call_of(
            "format-date"@,
            seq![a, b],
            t,
            here,
            env,
        ) is Err,
{
    lemma_other_names();
    let args = seq![a, b];
    assert(args[0] == a && args[1] == b);
    lemma_call(Builtin::FormatDate, "format-date"@, args, t, here, env);
}

/// `regex` looks for the pattern as it stands between the two ends of the
/// value.
#[verifier::rlimit(50)]
pub proof fn law_patterns_match_the_whole(
    a: ExprModel,
    b: ExprModel,
    s: Seq<char>,
    pattern: Seq<char>,
    t: Tree,
    here: Here,
    env: Surroundings,
)
    requires
        says(a, s, t, here, env),
        says(b, pattern, t, here, env),
    ensures
        ({
            let whole = seq!['^', '(', '?', ':'] + pattern + seq![')', '$'];
            let r = call_of("regex"@, seq![a, b], t, here, env);
            if regex_error(whole) is Some {
                r is Err
            } else {
                r == verdict(regex_is_match(whole, s))
            }
        }),
{
    lemma_other_names();
    reveal_strlit("^(?:");
    reveal_strlit(")$");
    assert("^(?:"@ =~= seq!['^', '(', '?', ':']);
    assert(")$"@ =~= seq![')', '$']);
    let args = seq![a, b];
    assert(args[0] == a && args[1] == b);
    lemma_call(Builtin::Regex, "regex"@, args, t, here, env);
}

} // verus!
