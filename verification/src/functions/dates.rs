//! Dates, read and written.

use crate::text::{
    cat2, cat3, chars_of, decimal, decimal_text, end_of_run, padded, parse_whole, seen, slice,
    slice_chars, span, span_back, split, split_on, start_of_run, string_of, texts, trim,
    trimmed_chars, whole, zero_padded, Class,
};
use vstd::prelude::*;

verus! {

/// The parts of an ISO date or datetime, read lexically.
///
/// Lexically on purpose: an ODK datetime carries its own offset
/// (`2026-08-07T06:31:13.834-03:00`) and the local time is already written
/// in it. Converting to some other zone to format it would move the
/// timestamp to a moment the interview did not happen at.
#[derive(Debug, Clone, Copy, PartialEq, Eq, Structural)]
pub struct DateParts {
    pub year: u64,
    pub month: u64,
    pub day: u64,
    pub hour: u64,
    pub minute: u64,
    pub second: u64,
    pub millisecond: u64,
}

/// Where the first of `chars` stands, or the end.
pub open spec fn first_of(s: Seq<char>, chars: Seq<char>, i: int) -> int
    decreases s.len() - i,
{
    if 0 <= i < s.len() && !chars.contains(s[i]) {
        first_of(s, chars, i + 1)
    } else {
        i
    }
}

pub open spec fn small(s: Seq<char>) -> Option<nat> {
    parse_whole(s, u32::MAX as nat)
}

pub open spec fn small_or_zero(s: Seq<char>) -> nat {
    match small(s) {
        Some(n) => n,
        None => 0,
    }
}

/// The part of a list, or nothing.
pub open spec fn part(s: Seq<Seq<char>>, i: int) -> Seq<char> {
    if i < s.len() {
        s[i]
    } else {
        Seq::empty()
    }
}

/// The clock of a datetime: what stands before its offset, whose sign may be
/// a `-`.
pub open spec fn clock_of(rest: Seq<char>) -> Seq<char> {
    let head = rest.take(first_of(rest, seq!['+', 'Z', 'z'], 0));
    let dash = span_back(head, head.len() as int, Class::Not('-'));
    if dash > 0 {
        head.take(dash - 1)
    } else {
        head
    }
}

/// Thousandths of a second, from the digits after the point.
pub open spec fn thousandths(fraction: Seq<char>) -> nat {
    let digits = if fraction.len() > 3 {
        fraction.take(3)
    } else {
        fraction
    };
    small_or_zero(digits + Seq::new((3 - digits.len()) as nat, |i: int| '0'))
}

/// What a text says as a date, with a clock where it has one.
pub open spec fn parse_iso(text: Seq<char>) -> Option<DateParts> {
    let s = trim(text);
    let cut = first_of(s, seq!['T', ' '], 0);
    let date = split_on(s.take(cut), '-');
    let year = parse_whole(part(date, 0), i64::MAX as nat);
    let month = small(part(date, 1));
    let day = small(part(date, 2));
    if year is None || month is None || day is None || !(1 <= month->0 <= 12) || !(1 <= day->0
        <= 31) {
        None
    } else {
        let clock = if cut < s.len() {
            split_on(clock_of(s.skip(cut + 1)), ':')
        } else {
            Seq::empty()
        };
        let seconds = part(clock, 2);
        let point = span(seconds, 0, Class::Not('.'));
        Some(
            DateParts {
                year: year->0 as u64,
                month: month->0 as u64,
                day: day->0 as u64,
                hour: small_or_zero(part(clock, 0)) as u64,
                minute: small_or_zero(part(clock, 1)) as u64,
                second: small_or_zero(seconds.take(point)) as u64,
                millisecond: if point < seconds.len() {
                    thousandths(seconds.skip(point + 1)) as u64
                } else {
                    0
                },
            },
        )
    }
}

pub const NO_LANGUAGE: &'static str =
    " names a day or month in the form's language, and this evaluator has none — it will not guess one";

/// What a format code stands for.
pub open spec fn code_text(parts: DateParts, code: char) -> Result<Seq<char>, Seq<char>> {
    if code == 'Y' {
        Ok(zero_padded(decimal(parts.year as nat), 4))
    } else if code == 'y' {
        Ok(zero_padded(decimal((parts.year % 100) as nat), 2))
    } else if code == 'm' {
        Ok(zero_padded(decimal(parts.month as nat), 2))
    } else if code == 'n' {
        Ok(decimal(parts.month as nat))
    } else if code == 'd' {
        Ok(zero_padded(decimal(parts.day as nat), 2))
    } else if code == 'e' {
        Ok(decimal(parts.day as nat))
    } else if code == 'H' {
        Ok(zero_padded(decimal(parts.hour as nat), 2))
    } else if code == 'h' {
        Ok(decimal(parts.hour as nat))
    } else if code == 'M' {
        Ok(zero_padded(decimal(parts.minute as nat), 2))
    } else if code == 'S' {
        Ok(zero_padded(decimal(parts.second as nat), 2))
    } else if code == '3' {
        Ok(zero_padded(decimal(parts.millisecond as nat), 3))
    } else if code == '%' {
        Ok("%"@)
    } else if code == 'a' || code == 'b' {
        Err("%"@ + seq![code] + NO_LANGUAGE@)
    } else {
        Err("unknown date format code %"@ + seq![code])
    }
}

/// A date under a format from `i` on.
pub open spec fn formatted_from(parts: DateParts, format: Seq<char>, i: int) -> Result<
    Seq<char>,
    Seq<char>,
>
    decreases format.len() - i,
{
    if i < 0 || i >= format.len() {
        Ok(Seq::empty())
    } else if format[i] != '%' {
        crate::parser::lexer::after(seq![format[i]], formatted_from(parts, format, i + 1))
    } else if i + 1 >= format.len() {
        Err("a date format ends with a bare %"@)
    } else {
        match code_text(parts, format[i + 1]) {
            Err(e) => Err(e),
            Ok(s) => crate::parser::lexer::after(s, formatted_from(parts, format, i + 2)),
        }
    }
}

fn place_of_first(s: &Vec<char>, chars: &Vec<char>) -> (r: usize)
    ensures
        r == first_of(s@, chars@, 0),
        r <= s@.len(),
{
    let n = s.len();
    let m = chars.len();
    let mut i: usize = 0;
    while i < n
        invariant
            n == s@.len(),
            m == chars@.len(),
            i <= n,
            first_of(s@, chars@, 0) == first_of(s@, chars@, i as int),
        decreases n - i,
    {
        let c = s[i];
        let mut j: usize = 0;
        while j < m
            invariant
                m == chars@.len(),
                j <= m,
                i < n,
                n == s@.len(),
                c == s@[i as int],
                first_of(s@, chars@, 0) == first_of(s@, chars@, i as int),
                forall|k: int| 0 <= k < j ==> chars@[k] != c,
            decreases m - j,
        {
            if chars[j] == c {
                assert(chars@.contains(c));
                return i;
            }
            j = j + 1;
        }
        i = i + 1;
    }
    i
}

fn small_number(s: &str) -> (r: u64)
    ensures
        r == small_or_zero(s@),
{
    match whole(s, 0xffff_ffff) {
        Some(n) => n,
        None => 0,
    }
}

fn part_of(v: &Vec<String>, i: usize) -> (r: String)
    ensures
        r@ == part(texts(v@), i as int),
{
    if i < v.len() {
        v[i].clone()
    } else {
        let s = String::new();
        assert(s@ == Seq::<char>::empty());
        s
    }
}

fn clock_text(rest: &Vec<char>) -> (r: String)
    ensures
        r@ == clock_of(rest@),
{
    let mut marks: Vec<char> = Vec::new();
    marks.push('+');
    marks.push('Z');
    marks.push('z');
    assert(marks@ == seq!['+', 'Z', 'z']);
    let stop = place_of_first(rest, &marks);
    let head = slice_chars(rest, 0, stop);
    assert(head@ == rest@.take(stop as int));
    let dash = start_of_run(&head, head.len(), Class::Not('-'));
    if dash > 0 {
        let r = slice(&head, 0, dash - 1);
        assert(r@ == head@.take(dash - 1));
        r
    } else {
        string_of(&head)
    }
}

fn thousandths_of(fraction: &Vec<char>) -> (r: u64)
    ensures
        r == thousandths(fraction@),
{
    let n: usize = if fraction.len() > 3 {
        3
    } else {
        fraction.len()
    };
    let digits = slice(fraction, 0, n);
    let ghost d = if fraction@.len() > 3 {
        fraction@.take(3)
    } else {
        fraction@
    };
    assert(digits@ == d);
    let mut out = digits;
    let mut i: usize = n;
    while i < 3
        invariant
            n <= i <= 3,
            n == d.len(),
            out@ == d + Seq::new((i - n) as nat, |k: int| '0'),
        decreases 3 - i,
    {
        let ghost was = out@;
        out.push('0');
        assert(out@ == d + Seq::new((i + 1 - n) as nat, |k: int| '0'));
        i = i + 1;
    }
    assert(out@ == d + Seq::new((3 - d.len()) as nat, |k: int| '0'));
    small_number(out.as_str())
}

/// Read a date, with a clock where the text has one.
pub fn read_iso(text: &str) -> (r: Option<DateParts>)
    ensures
        r == parse_iso(text@),
{
    let s = trimmed_chars(&chars_of(text));
    let mut marks: Vec<char> = Vec::new();
    marks.push('T');
    marks.push(' ');
    assert(marks@ == seq!['T', ' ']);
    let cut = place_of_first(&s, &marks);
    let date_text = slice(&s, 0, cut);
    assert(date_text@ == s@.take(cut as int));
    let date = split(date_text.as_str(), '-');
    let year = match whole(part_of(&date, 0).as_str(), 0x7fff_ffff_ffff_ffff) {
        Some(n) => n,
        None => {
            return None;
        },
    };
    let month = match whole(part_of(&date, 1).as_str(), 0xffff_ffff) {
        Some(n) => n,
        None => {
            return None;
        },
    };
    let day = match whole(part_of(&date, 2).as_str(), 0xffff_ffff) {
        Some(n) => n,
        None => {
            return None;
        },
    };
    if month < 1 || month > 12 || day < 1 || day > 31 {
        return None;
    }
    let clock: Vec<String> = if cut < s.len() {
        let rest = slice_chars(&s, cut + 1, s.len());
        assert(rest@ == s@.skip(cut + 1));
        split(clock_text(&rest).as_str(), ':')
    } else {
        let none: Vec<String> = Vec::new();
        assert(texts(none@) == Seq::<Seq<char>>::empty());
        none
    };
    let seconds = chars_of(part_of(&clock, 2).as_str());
    let point = end_of_run(&seconds, 0, Class::Not('.'));
    let seconds_text = slice(&seconds, 0, point);
    assert(seconds_text@ == seconds@.take(point as int));
    let millisecond = if point < seconds.len() {
        let fraction = slice_chars(&seconds, point + 1, seconds.len());
        assert(fraction@ == seconds@.skip(point + 1));
        thousandths_of(&fraction)
    } else {
        0
    };
    Some(
        DateParts {
            year,
            month,
            day,
            hour: small_number(part_of(&clock, 0).as_str()),
            minute: small_number(part_of(&clock, 1).as_str()),
            second: small_number(seconds_text.as_str()),
            millisecond,
        },
    )
}

fn padded_number(n: u64, width: usize) -> (r: String)
    ensures
        r@ == zero_padded(decimal(n as nat), width as nat),
{
    padded(decimal_text(n).as_str(), width)
}

fn code(parts: &DateParts, c: char) -> (r: Result<String, String>)
    ensures
        seen(r) == code_text(*parts, c),
{
    if c == 'Y' {
        Ok(padded_number(parts.year, 4))
    } else if c == 'y' {
        Ok(padded_number(parts.year % 100, 2))
    } else if c == 'm' {
        Ok(padded_number(parts.month, 2))
    } else if c == 'n' {
        Ok(decimal_text(parts.month))
    } else if c == 'd' {
        Ok(padded_number(parts.day, 2))
    } else if c == 'e' {
        Ok(decimal_text(parts.day))
    } else if c == 'H' {
        Ok(padded_number(parts.hour, 2))
    } else if c == 'h' {
        Ok(decimal_text(parts.hour))
    } else if c == 'M' {
        Ok(padded_number(parts.minute, 2))
    } else if c == 'S' {
        Ok(padded_number(parts.second, 2))
    } else if c == '3' {
        Ok(padded_number(parts.millisecond, 3))
    } else if c == '%' {
        Ok("%".to_string())
    } else {
        let mut one = String::new();
        one.push(c);
        assert(one@ == seq![c]);
        if c == 'a' || c == 'b' {
            Err(cat3("%", one.as_str(), NO_LANGUAGE))
        } else {
            Err(cat2("unknown date format code %", one.as_str()))
        }
    }
}

/// ODK's date formatting codes.
///
/// The numeric codes only. `%a` and `%b` are the day and month names *in
/// the form's language*, and this crate has no language: emitting English
/// into a Portuguese questionnaire would be a wrong answer rather than a
/// missing one, so they are refused by name.
pub fn format_date_parts(parts: &DateParts, format: &str) -> (r: Result<String, String>)
    ensures
        seen(r) == formatted_from(*parts, format@, 0),
{
    let f = chars_of(format);
    let n = f.len();
    let mut out = String::new();
    let mut i: usize = 0;
    let ghost all = formatted_from(*parts, f@, 0);
    proof {
        assert(out@ == Seq::<char>::empty());
        if let Ok(s) = all {
            assert(Seq::<char>::empty() + s == s);
        }
    }
    while i < n
        invariant
            n == f@.len(),
            f@ == format@,
            i <= n,
            all == formatted_from(*parts, format@, 0),
            all == crate::parser::lexer::after(out@, formatted_from(*parts, f@, i as int)),
        decreases n - i,
    {
        let c = f[i];
        let ghost was = out@;
        if c != '%' {
            out.push(c);
            proof {
                if let Ok(s) = formatted_from(*parts, f@, i + 1) {
                    assert(was + (seq![c] + s) == out@ + s);
                }
            }
            i = i + 1;
            continue;
        }
        if i == n - 1 {
            return Err("a date format ends with a bare %".to_string());
        }
        match code(parts, f[i + 1]) {
            Err(e) => {
                return Err(e);
            },
            Ok(s) => {
                out.append(s.as_str());
                proof {
                    if let Ok(t) = formatted_from(*parts, f@, i + 2) {
                        assert(was + (s@ + t) == out@ + t);
                    }
                }
                i = i + 2;
            },
        }
    }
    assert(out@ + Seq::<char>::empty() == out@);
    Ok(out)
}

} // verus!
