//! What figures are read as.

use crate::number::decimal::{parse_decimal, parse_exponent, parse_number, split_digits, ten_to};
use crate::number::{one, rounded, with_sign};
use crate::text::laws::lemma_span_is;
use crate::text::{all_digits, digits_value, in_class, is_digit, Class};
use vstd::prelude::*;

verus! {

/// A text after a sign: a minus, a plus or none.
pub open spec fn signed_text(sign: Option<char>, body: Seq<char>) -> Seq<char> {
    match sign {
        Some(c) => seq![c] + body,
        None => body,
    }
}

proof fn lemma_digits_run(s: Seq<char>, i: int, d: Seq<char>)
    requires
        0 <= i,
        i + d.len() <= s.len(),
        s.subrange(i, i + d.len()) == d,
        all_digits(d),
        i + d.len() < s.len() ==> !is_digit(s[i + d.len()]),
    ensures
        crate::text::span(s, i, Class::Digit) == i + d.len(),
{
    assert forall|x: int| i <= x < i + d.len() implies in_class(Class::Digit, #[trigger] s[x]) by {
        assert(s[x] == d[x - i]);
        assert(is_digit(d[x - i]));
    }
    lemma_span_is(s, i, i + d.len(), Class::Digit);
}

proof fn lemma_signed(sign: Option<char>, body: Seq<char>)
    requires
        sign matches Some(c) ==> c == '-' || c == '+',
        body.len() > 0,
        is_digit(body[0]),
        parse_decimal(body) is Some,
    ensures
        parse_number(signed_text(sign, body)) == Some(
            with_sign(
                sign == Some('-'),
                crate::number::decimal::decimal_magnitude(
                    (parse_decimal(body)->0).0,
                    (parse_decimal(body)->0).1,
                ),
            ),
        ),
{
    reveal_strlit("inf");
    reveal_strlit("infinity");
    reveal_strlit("nan");
    assert("inf"@[0] == 'i' && "infinity"@[0] == 'i' && "nan"@[0] == 'n');
    let s = signed_text(sign, body);
    if sign is Some {
        assert(s.skip(1) =~= body);
    } else {
        assert(s[0] == body[0]);
    }
    assert(!crate::number::decimal::is_letter_of(body[0], 'i'));
    assert(!crate::number::decimal::is_letter_of(body[0], 'n'));
}

/// Figures with a point are read as the number nearest to their digits over
/// the power of ten that the places behind the point make, under their sign.
pub proof fn law_decimals_are_read(sign: Option<char>, before: Seq<char>, after: Seq<char>)
    requires
        sign matches Some(c) ==> c == '-' || c == '+',
        before.len() > 0,
        all_digits(before),
        after.len() > 0,
        all_digits(after),
    ensures
        parse_number(signed_text(sign, before + seq!['.'] + after)) == Some(
            with_sign(
                sign == Some('-'),
                rounded(digits_value(before + after) * one(), ten_to(after.len())),
            ),
        ),
{
    let s = before + seq!['.'] + after;
    let i = before.len() as int;
    assert(is_digit(before[0]));
    assert(s[0] == before[0]);
    assert(s.subrange(0, i) =~= before);
    assert(s[i] == '.');
    lemma_digits_run(s, 0, before);
    assert(s.subrange(i + 1, i + 1 + after.len()) =~= after);
    lemma_digits_run(s, i + 1, after);
    let end = s.len() as int;
    assert(s.take(i) =~= before);
    assert(s.subrange(i + 1, end) =~= after);
    assert(split_digits(s) == (before, after, end));
    assert(s.skip(end) =~= Seq::<char>::empty());
    assert(parse_exponent(s.skip(end)) == Some(0int));
    lemma_signed(sign, s);
}

/// Figures with an exponent are read as the number nearest to them times
/// that power of ten.
pub proof fn law_exponents_are_read(
    sign: Option<char>,
    digits: Seq<char>,
    mark: char,
    minus: bool,
    exponent: Seq<char>,
)
    requires
        sign matches Some(c) ==> c == '-' || c == '+',
        mark == 'e' || mark == 'E',
        digits.len() > 0,
        all_digits(digits),
        exponent.len() > 0,
        all_digits(exponent),
        minus ==> digits_value(exponent) > 0,
    ensures
        parse_number(
            signed_text(
                sign,
                digits + seq![mark] + (if minus {
                    seq!['-'] + exponent
                } else {
                    exponent
                }),
            ),
        ) == Some(
            with_sign(
                sign == Some('-'),
                if minus {
                    rounded(digits_value(digits) * one(), ten_to(digits_value(exponent)))
                } else {
                    rounded(digits_value(digits) * ten_to(digits_value(exponent)) * one(), 1)
                },
            ),
        ),
{
    let tail = if minus {
        seq!['-'] + exponent
    } else {
        exponent
    };
    let s = digits + seq![mark] + tail;
    let i = digits.len() as int;
    assert(is_digit(digits[0]));
    assert(is_digit(exponent[0]));
    assert(s[0] == digits[0]);
    assert(s.subrange(0, i) =~= digits);
    assert(s[i] == mark);
    lemma_digits_run(s, 0, digits);
    assert(s.take(i) =~= digits);
    let rest = s.skip(i);
    assert(rest =~= seq![mark] + tail);
    assert(rest[0] == mark);
    assert(rest[1] == tail[0]);
    if minus {
        assert(rest.skip(2) =~= exponent);
    } else {
        assert(rest.skip(1) =~= exponent);
    }
    let none = Seq::<char>::empty();
    assert(split_digits(s) == (digits, none, i));
    assert(digits + none =~= digits);
    lemma_signed(sign, s);
}

} // verus!
