//! Numbers as decimal text, read and written.

use crate::number::natural::Natural;
use crate::number::{
    is_finite, is_infinite, is_nan, is_negative, magnitude, of_count, one, round, rounded, signed,
    units, with_sign, Number, INFINITE, NOT_A_NUMBER,
};
use crate::text::{
    all_digits, cat2, cat3, chars_of, decimal, digit, digits_value, end_of_run, padded, slice,
    signed_decimal, slice_chars, span, zero_padded, Class,
};
use vstd::arithmetic::power2::pow2;
use vstd::prelude::*;

verus! {

pub open spec fn ten_to(n: nat) -> nat
    decreases n,
{
    if n == 0 {
        1
    } else {
        10 * ten_to((n - 1) as nat)
    }
}

/// The magnitude nearest to `d * 10^e`.
pub open spec fn decimal_magnitude(d: nat, e: int) -> nat {
    if e >= 0 {
        rounded(d * ten_to(e as nat) * one(), 1)
    } else {
        rounded(d * one(), ten_to((-e) as nat))
    }
}

// ---------------------------------------------------------------------------
// Reading
// ---------------------------------------------------------------------------

/// Whether a character is a lower-case letter or its capital.
pub open spec fn is_letter_of(c: char, lower: char) -> bool {
    c == lower || ('A' <= c <= 'Z' && 'a' <= lower <= 'z' && c as int + 32 == lower as int)
}

pub open spec fn spells(s: Seq<char>, lower: Seq<char>) -> bool {
    s.len() == lower.len() && forall|i: int|
        0 <= i < s.len() ==> is_letter_of(#[trigger] s[i], lower[i])
}

/// The exponent that a text after the digits of a number writes.
pub open spec fn parse_exponent(s: Seq<char>) -> Option<int> {
    if s.len() == 0 {
        Some(0)
    } else if s[0] != 'e' && s[0] != 'E' {
        None
    } else {
        let signed = s.len() > 1 && (s[1] == '-' || s[1] == '+');
        let digits = s.skip(if signed {
            2
        } else {
            1
        });
        if digits.len() == 0 || !all_digits(digits) {
            None
        } else if signed && s[1] == '-' {
            Some(-(digits_value(digits) as int))
        } else {
            Some(digits_value(digits) as int)
        }
    }
}

/// The digits before the point, those after it, and where they end.
pub open spec fn split_digits(s: Seq<char>) -> (Seq<char>, Seq<char>, int) {
    let i = span(s, 0, Class::Digit);
    if i < s.len() && s[i] == '.' {
        let j = span(s, i + 1, Class::Digit);
        (s.take(i), s.subrange(i + 1, j), j)
    } else {
        (s.take(i), Seq::empty(), i)
    }
}

/// A decimal number without a sign, as its digits and the power of ten they
/// count.
pub open spec fn parse_decimal(s: Seq<char>) -> Option<(nat, int)> {
    let (before, after, end) = split_digits(s);
    if before.len() + after.len() == 0 {
        None
    } else {
        match parse_exponent(s.skip(end)) {
            Some(e) => Some((digits_value(before + after), e - after.len())),
            None => None,
        }
    }
}

/// The number that a text writes: digits with a point and an exponent where
/// it has them, or the name of an infinity or of what is no number, after a
/// sign or none.
pub open spec fn parse_number(s: Seq<char>) -> Option<Number> {
    let signed = s.len() > 0 && (s[0] == '-' || s[0] == '+');
    let negative = signed && s[0] == '-';
    let body = if signed {
        s.skip(1)
    } else {
        s
    };
    if spells(body, "inf"@) || spells(body, "infinity"@) {
        Some(with_sign(negative, INFINITE as nat))
    } else if spells(body, "nan"@) {
        Some(with_sign(negative, NOT_A_NUMBER as nat))
    } else {
        match parse_decimal(body) {
            Some((d, e)) => Some(with_sign(negative, decimal_magnitude(d, e))),
            None => None,
        }
    }
}

fn spelled(s: &Vec<char>, lower: &str) -> (r: bool)
    ensures
        r == spells(s@, lower@),
{
    let l = chars_of(lower);
    if s.len() != l.len() {
        return false;
    }
    let n = s.len();
    for i in 0..n
        invariant
            n == s@.len(),
            l@ == lower@,
            l@.len() == n,
            forall|j: int| 0 <= j < i ==> is_letter_of(#[trigger] s@[j], l@[j]),
    {
        let c = s[i];
        let d = l[i];
        if !(c == d || ('A' <= c && c <= 'Z' && 'a' <= d && d <= 'z' && c as u32 + 32 == d as u32)) {
            assert(!is_letter_of(s@[i as int], l@[i as int]));
            return false;
        }
    }
    true
}

/// The number that a run of digits writes.
fn natural_of(s: &Vec<char>) -> (r: Natural)
    requires
        all_digits(s@),
    ensures
        r@ == digits_value(s@),
{
    let mut r = Natural::zero();
    let n = s.len();
    assert(s@.take(0) == Seq::<char>::empty());
    for i in 0..n
        invariant
            n == s@.len(),
            all_digits(s@),
            r@ == digits_value(s@.take(i as int)),
    {
        assert(s@.take(i + 1).drop_last() == s@.take(i as int));
        let c = s[i];
        r = r.times_plus(10, c as u32 - 48);
    }
    assert(s@.take(n as int) == s@);
    r
}

pub const FAR: u128 = 0x10_0000_0000_0000_0000_0000_0000;

pub proof fn lemma_digits_prefix(s: Seq<char>, i: int)
    requires
        0 <= i <= s.len(),
    ensures
        digits_value(s.take(i)) <= digits_value(s),
    decreases s.len(),
{
    if i < s.len() {
        lemma_digits_prefix(s.drop_last(), i);
        assert(s.drop_last().take(i) == s.take(i));
    } else {
        assert(s.take(i) == s);
    }
}

/// The number that a run of digits writes, or `FAR` where it is more.
fn small_natural_of(s: &Vec<char>) -> (r: u128)
    requires
        all_digits(s@),
    ensures
        r == (if digits_value(s@) > FAR {
            FAR as nat
        } else {
            digits_value(s@)
        }),
{
    let mut r: u128 = 0;
    let n = s.len();
    assert(s@.take(0) == Seq::<char>::empty());
    for i in 0..n
        invariant
            n == s@.len(),
            all_digits(s@),
            r <= FAR,
            r == digits_value(s@.take(i as int)),
    {
        proof {
            assert(s@.take(i + 1).drop_last() == s@.take(i as int));
            lemma_digits_prefix(s@, i + 1);
        }
        let c = s[i];
        let next: u128 = r * 10 + (c as u128 - 48);
        if next > FAR {
            return FAR;
        }
        r = next;
    }
    assert(s@.take(n as int) == s@);
    r
}

proof fn lemma_ten_to(n: nat)
    ensures
        ten_to(n) >= pow2(3 * n),
        ten_to(n) > 0,
    decreases n,
{
    vstd::arithmetic::power2::lemma2_to64();
    if n > 0 {
        lemma_ten_to((n - 1) as nat);
        vstd::arithmetic::power2::lemma_pow2_adds(3, (3 * (n - 1)) as nat);
    }
}

pub proof fn lemma_ten_to_adds(a: nat, b: nat)
    ensures
        ten_to(a + b) == ten_to(a) * ten_to(b),
    decreases a,
{
    if a > 0 {
        lemma_ten_to_adds((a - 1) as nat, b);
        let x = ten_to((a - 1) as nat);
        let y = ten_to(b);
        assert(10 * (x * y) == (10 * x) * y) by (nonlinear_arith);
        assert((a - 1) + b == a + b - 1);
    } else {
        assert(1 * ten_to(b) == ten_to(b));
    }
}

proof fn lemma_digits_bound(s: Seq<char>)
    requires
        all_digits(s),
    ensures
        digits_value(s) < ten_to(s.len()),
    decreases s.len(),
{
    if s.len() > 0 {
        assert(all_digits(s.drop_last())) by {
            assert forall|i: int| 0 <= i < s.drop_last().len() implies crate::text::is_digit(
                #[trigger] s.drop_last()[i],
            ) by {
                assert(s.drop_last()[i] == s[i]);
            }
        }
        lemma_digits_bound(s.drop_last());
        assert(crate::text::is_digit(s[s.len() - 1]));
    }
}

proof fn lemma_too_large(d: nat, e: nat)
    requires
        d >= 1,
        e >= 400,
    ensures
        decimal_magnitude(d, e as int) == INFINITE,
{
    lemma_ten_to(e);
    vstd::arithmetic::power2::lemma_pow2_adds(3 * e, 1074);
    if 3 * e + 1074 > 2100 {
        vstd::arithmetic::power2::lemma_pow2_strictly_increases(2100, 3 * e + 1074);
    }
    let n = d * ten_to(e) * one();
    let t = ten_to(e);
    let p = pow2(3 * e);
    let o = one();
    assert(n >= p * o) by (nonlinear_arith)
        requires
            n == d * t * o,
            d >= 1,
            t >= p,
            o >= 0,
    ;
    crate::number::lemma_scale_chosen(n, 1, 0);
    let s = crate::number::scale_from(n, 1, 0);
    if s < 2047 {
        if 53 + s < 2100 {
            vstd::arithmetic::power2::lemma_pow2_strictly_increases(53 + s, 2100);
        }
        assert(1 * pow2(53 + s) == pow2(53 + s));
        assert(false);
    }
    assert(s * crate::number::TWO_52 >= INFINITE) by (nonlinear_arith)
        requires
            s >= 2047,
    ;
}

proof fn lemma_too_small(d: nat, n: nat, k: nat)
    requires
        d < ten_to(n),
        k >= n + 400,
    ensures
        decimal_magnitude(d, -(k as int)) == 0,
{
    let rest = (k - n) as nat;
    lemma_ten_to(rest);
    lemma_ten_to(k);
    lemma_ten_to_adds(n, rest);
    vstd::arithmetic::power2::lemma_pow2_strictly_increases(1075, 3 * rest);
    vstd::arithmetic::power2::lemma_pow2_unfold(1075);
    vstd::arithmetic::power2::lemma_pow2_pos(1074);
    let num = d * one();
    let den = ten_to(k);
    let t = ten_to(n);
    let u = ten_to(rest);
    let o = one();
    assert(2 * num < den) by (nonlinear_arith)
        requires
            num == d * o,
            den == t * u,
            d < t,
            u > 2 * o,
            o > 0,
    ;
    vstd::arithmetic::power2::lemma2_to64();
    vstd::arithmetic::power2::lemma_pow2_pos(53);
    assert(num < den * pow2(53)) by (nonlinear_arith)
        requires
            2 * num < den,
            pow2(53) >= 1,
            num >= 0,
    ;
    assert(den * 1 == den);
    vstd::arithmetic::div_mod::lemma_basic_div(num as int, den as int);
    vstd::arithmetic::div_mod::lemma_small_mod(num, den);
}

proof fn lemma_zero_decimal(e: int)
    ensures
        decimal_magnitude(0, e) == 0,
{
    let k = (if e >= 0 {
        0
    } else {
        -e
    }) as nat;
    lemma_ten_to(k);
    let den = if e >= 0 {
        1
    } else {
        ten_to(k)
    };
    vstd::arithmetic::power2::lemma_pow2_pos(53);
    vstd::arithmetic::power2::lemma2_to64();
    assert(0 * ten_to(e as nat) * one() == 0) by (nonlinear_arith);
    assert(0 * one() == 0) by (nonlinear_arith);
    assert(0 < den * pow2(53)) by (nonlinear_arith)
        requires
            den > 0,
            pow2(53) > 0,
    ;
    assert(den * 1 == den);
    vstd::arithmetic::div_mod::lemma_basic_div(0, den as int);
    vstd::arithmetic::div_mod::lemma_small_mod(0, den);
}

fn ten_power(n: u128) -> (r: Natural)
    ensures
        r@ == ten_to(n as nat),
{
    let mut r = Natural::from_u64(1);
    for i in 0..n
        invariant
            r@ == ten_to(i as nat),
    {
        r = r.times_plus(10, 0);
    }
    r
}

/// The magnitude nearest to `d * 10^e`, for exponents that are not far.
pub(crate) fn magnitude_near(d: &Natural, e: i128) -> (m: u64)
    requires
        e > i128::MIN,
    ensures
        m == decimal_magnitude(d@, e as int),
        m <= INFINITE,
{
    if e >= 0 {
        let t = d.times(&ten_power(e as u128)).shifted(1074);
        round(&t, &Natural::from_u64(1))
    } else {
        let den = ten_power((-e) as u128);
        proof {
            lemma_ten_to((-e) as nat);
        }
        round(&d.shifted(1074), &den)
    }
}

/// The magnitude nearest to `d * 10^e`, where `d` has `n` digits.
fn magnitude_of(d: &Natural, n: usize, e: i128) -> (m: u64)
    requires
        d@ < ten_to(n as nat),
        e >= -0x20_0000_0000_0000_0000_0000_0000,
    ensures
        m == decimal_magnitude(d@, e as int),
        m <= INFINITE,
{
    if d.is_zero() {
        proof {
            lemma_zero_decimal(e as int);
        }
        return 0;
    }
    if e >= 400 {
        proof {
            lemma_too_large(d@, e as nat);
        }
        return INFINITE;
    }
    if e <= -(n as i128) - 400 {
        proof {
            lemma_too_small(d@, n as nat, (-e) as nat);
        }
        return 0;
    }
    magnitude_near(d, e)
}

/// The exponent that follows the digits, or one as far out where it is
/// farther than any text is long.
fn exponent_of(s: &Vec<char>, start: usize) -> (r: Option<i128>)
    requires
        start <= s@.len(),
    ensures
        r is Some == parse_exponent(s@.skip(start as int)) is Some,
        r matches Some(e) ==> {
            let t = parse_exponent(s@.skip(start as int))->0;
            &&& -FAR <= e <= FAR
            &&& -FAR < t < FAR ==> e == t
            &&& t >= FAR ==> e == FAR
            &&& t <= -FAR ==> e == -FAR
        },
{
    let ghost rest = s@.skip(start as int);
    let n = s.len();
    if start == n {
        return Some(0);
    }
    let c = s[start];
    assert(c == rest[0]);
    if c != 'e' && c != 'E' {
        return None;
    }
    let signed = start + 1 < n && (s[start + 1] == '-' || s[start + 1] == '+');
    let from: usize = if signed {
        start + 2
    } else {
        start + 1
    };
    let digits = slice_chars(s, from, n);
    assert(digits@ == rest.skip(from - start));
    if digits.len() == 0 {
        return None;
    }
    let end = end_of_run(&digits, 0, Class::Digit);
    proof {
        crate::text::lemma_span(digits@, 0, Class::Digit);
        assert(end < digits@.len() ==> !crate::text::is_digit(digits@[end as int]));
        assert(end == digits@.len() ==> all_digits(digits@)) by {
            if end == digits@.len() {
                assert forall|i: int| 0 <= i < digits@.len() implies crate::text::is_digit(
                    #[trigger] digits@[i],
                ) by {
                    assert(crate::text::in_class(Class::Digit, digits@[i]));
                }
            }
        }
    }
    if end != digits.len() {
        return None;
    }
    let e = small_natural_of(&digits);
    if signed && s[start + 1] == '-' {
        Some(-(e as i128))
    } else {
        Some(e as i128)
    }
}

proof fn lemma_span_digits(s: Seq<char>, i: int)
    requires
        0 <= i <= s.len(),
    ensures
        all_digits(s.subrange(i, span(s, i, Class::Digit))),
        i <= span(s, i, Class::Digit) <= s.len(),
{
    crate::text::lemma_span(s, i, Class::Digit);
    let t = s.subrange(i, span(s, i, Class::Digit));
    assert forall|j: int| 0 <= j < t.len() implies crate::text::is_digit(#[trigger] t[j]) by {
        assert(crate::text::in_class(Class::Digit, s[i + j]));
    }
}

fn decimal_of(s: &Vec<char>) -> (r: Option<u64>)
    ensures
        match parse_decimal(s@) {
            Some((d, e)) => r == Some(decimal_magnitude(d, e) as u64) && decimal_magnitude(d, e)
                <= INFINITE,
            None => r is None,
        },
{
    let n = s.len();
    let i = end_of_run(s, 0, Class::Digit);
    let mut digits = slice_chars(s, 0, i);
    let ghost before = digits@;
    proof {
        lemma_span_digits(s@, 0);
        assert(before == s@.take(i as int));
    }
    let mut j: usize = i;
    if i < n && s[i] == '.' {
        j = end_of_run(s, i + 1, Class::Digit);
        let mut after = slice_chars(s, i + 1, j);
        proof {
            lemma_span_digits(s@, i + 1);
        }
        digits.append(&mut after);
    }
    let ghost fraction = split_digits(s@).1;
    let after_point: usize = digits.len() - i;
    proof {
        assert(digits@ == before + fraction);
        assert(all_digits(digits@)) by {
            assert forall|k: int| 0 <= k < digits@.len() implies crate::text::is_digit(
                #[trigger] digits@[k],
            ) by {
                if k < before.len() {
                    assert(crate::text::is_digit(before[k]));
                } else {
                    assert(crate::text::is_digit(fraction[k - before.len()]));
                }
            }
        }
        lemma_digits_bound(digits@);
    }
    if digits.len() == 0 {
        return None;
    }
    let e = match exponent_of(s, j) {
        Some(e) => e,
        None => {
            return None;
        },
    };
    let d = natural_of(&digits);
    let exponent: i128 = e - after_point as i128;
    let m = magnitude_of(&d, digits.len(), exponent);
    proof {
        let t = parse_exponent(s@.skip(j as int))->0;
        if t >= FAR {
            if d@ == 0 {
                lemma_zero_decimal(t - after_point);
                lemma_zero_decimal(exponent as int);
            } else {
                lemma_too_large(d@, (t - after_point) as nat);
                lemma_too_large(d@, exponent as nat);
            }
        } else if t <= -FAR {
            lemma_too_small(d@, digits@.len(), (after_point - t) as nat);
            lemma_too_small(d@, digits@.len(), (-exponent) as nat);
        }
    }
    Some(m)
}

/// The number that a text writes.
pub fn parse(s: &Vec<char>) -> (r: Option<Number>)
    ensures
        r == parse_number(s@),
{
    let is_signed = s.len() > 0 && (s[0] == '-' || s[0] == '+');
    let negative = is_signed && s[0] == '-';
    let from: usize = if is_signed {
        1
    } else {
        0
    };
    let body = slice_chars(s, from, s.len());
    assert(body@ == s@.skip(from as int));
    assert(s@.skip(0) == s@);
    if spelled(&body, "inf") || spelled(&body, "infinity") {
        return Some(signed(negative, INFINITE));
    }
    if spelled(&body, "nan") {
        return Some(signed(negative, NOT_A_NUMBER));
    }
    match decimal_of(&body) {
        Some(m) => Some(signed(negative, m)),
        None => None,
    }
}

// ---------------------------------------------------------------------------
// Writing
// ---------------------------------------------------------------------------

/// A magnitude counted in tens to the `p`, as a fraction.
pub open spec fn counted(m: nat, p: int) -> (nat, nat) {
    if p >= 0 {
        (units(m), one() * ten_to(p as nat))
    } else {
        (units(m) * ten_to((-p) as nat), one())
    }
}

/// The whole count at or below a magnitude.
pub open spec fn count_below(m: nat, p: int) -> nat {
    let (num, den) = counted(m, p);
    num / den
}

/// Whether `c` tens to the `p` read back as the magnitude.
pub open spec fn reads_back(m: nat, c: nat, p: int) -> bool {
    decimal_magnitude(c, p) == m
}

/// Whether digits down to place `p` are enough to tell the magnitude.
pub open spec fn enough(m: nat, p: int) -> bool {
    reads_back(m, count_below(m, p), p) || reads_back(m, count_below(m, p) + 1, p)
}

/// The highest place from `p` down whose digits are enough.
pub open spec fn place_from(m: nat, p: int) -> int
    decreases p + 1074,
{
    if p <= -1074 || enough(m, p) {
        p
    } else {
        place_from(m, p - 1)
    }
}

pub open spec fn last_place(m: nat) -> int {
    place_from(m, decimal(units(m) / one()).len() as int)
}

/// The count at the last place: of the two around the magnitude one that
/// reads back, and the nearer where both do.
pub open spec fn last_count(m: nat) -> nat {
    let p = last_place(m);
    let (num, den) = counted(m, p);
    let c = num / den;
    if reads_back(m, c + 1, p) && (!reads_back(m, c, p) || 2 * (num % den) >= den) {
        c + 1
    } else {
        c
    }
}

/// `c` tens to the `p`, written out.
pub open spec fn positional(c: nat, p: int) -> Seq<char> {
    if p >= 0 {
        decimal(c * ten_to(p as nat))
    } else {
        let k = (-p) as nat;
        decimal(c / ten_to(k)) + "."@ + zero_padded(decimal(c % ten_to(k)), k)
    }
}

/// `c` tens to the `p`, as one digit before the point and an exponent.
pub open spec fn scientific(c: nat, p: int) -> Seq<char> {
    let digits = decimal(c);
    let fraction = if digits.len() > 1 {
        "."@ + digits.skip(1)
    } else {
        Seq::empty()
    };
    digits.take(1) + fraction + "e"@ + signed_decimal(p + digits.len() - 1)
}

/// The text of a number as a programmer reads it: with a point even where
/// it is whole, and with an exponent where it is far from one.
pub open spec fn debug(x: Number) -> Seq<char> {
    let m = magnitude(x);
    if !is_finite(x) {
        display(x)
    } else {
        let body = if (m > 0 && m < decimal_magnitude(1, -4)) || m >= decimal_magnitude(1, 16) {
            scientific(last_count(m), last_place(m))
        } else if last_place(m) >= 0 {
            positional(last_count(m), last_place(m)) + ".0"@
        } else {
            positional(last_count(m), last_place(m))
        };
        if is_negative(x) {
            "-"@ + body
        } else {
            body
        }
    }
}

/// The shortest decimal that reads back as the number, and of those the
/// nearest to it.
pub open spec fn display(x: Number) -> Seq<char> {
    let body = positional(last_count(magnitude(x)), last_place(magnitude(x)));
    if is_nan(x) {
        "NaN"@
    } else if is_infinite(x) {
        if is_negative(x) {
            "-inf"@
        } else {
            "inf"@
        }
    } else if is_negative(x) {
        "-"@ + body
    } else {
        body
    }
}

fn natural_text(n: &Natural) -> (r: String)
    ensures
        r@ == decimal(n@),
    decreases n@,
{
    let ten = Natural::from_u64(10);
    if n.less(&ten) {
        let d = n.to_u64();
        let mut s = String::new();
        s.push(digit(d as u8));
        assert(s@ == seq![crate::text::digit_char(n@ as int)]);
        s
    } else {
        let (q, r) = n.divided(&ten);
        let mut s = natural_text(&q);
        let d = r.to_u64();
        s.push(digit(d as u8));
        s
    }
}

/// The last place that a finite magnitude is written to, and the count there.
fn shortest(m: u64) -> (r: (Natural, i128))
    requires
        m < INFINITE,
    ensures
        r.0@ == last_count(m as nat),
        r.1 == last_place(m as nat),
        -1074 <= r.1 <= 0xffff_ffff_ffff_ffff,
{
    let ghost mag = m as nat;
    let u = crate::number::in_units(m);
    let one_unit = crate::number::one_in_units();
    let (whole, _) = u.divided(&one_unit);
    let digits = chars_of(natural_text(&whole).as_str());
    let step = Natural::from_u64(1);
    let mut p: i128 = digits.len() as i128;
    loop
        invariant
            mag == m as nat,
            m < INFINITE,
            u@ == units(mag),
            one_unit@ == one(),
            step@ == 1,
            one_unit@ > 0,
            -1074 <= p <= 0xffff_ffff_ffff_ffff,
            place_from(mag, p as int) == last_place(mag),
        decreases p + 1074,
    {
        let (num, den) = if p >= 0 {
            let t = ten_power(p as u128);
            proof {
                lemma_ten_to(p as nat);
                assert(one() * ten_to(p as nat) > 0) by (nonlinear_arith)
                    requires
                        one() > 0,
                        ten_to(p as nat) > 0,
                ;
            }
            (u.copy(), one_unit.times(&t))
        } else {
            (u.times(&ten_power((-p) as u128)), one_unit.copy())
        };
        let (below, rest) = num.divided(&den);
        let above = below.plus(&step);
        let low_fits = magnitude_near(&below, p) == m;
        let high_fits = magnitude_near(&above, p) == m;
        if p == -1074 || low_fits || high_fits {
            if high_fits && (!low_fits || !rest.times_plus(2, 0).less(&den)) {
                return (above, p);
            }
            return (below, p);
        }
        p = p - 1;
    }
}

fn positional_text(c: &Natural, p: i128) -> (r: String)
    requires
        p >= -1074,
    ensures
        r@ == positional(c@, p as int),
{
    if p >= 0 {
        natural_text(&c.times(&ten_power(p as u128)))
    } else {
        let k: usize = (-p) as usize;
        proof {
            lemma_ten_to(k as nat);
        }
        let (whole, rest) = c.divided(&ten_power(k as u128));
        let a = natural_text(&whole);
        let b = padded(natural_text(&rest).as_str(), k);
        cat3(a.as_str(), ".", b.as_str())
    }
}

impl Number {
    /// The shortest decimal that reads back as the number.
    pub fn display(self) -> (r: String)
        ensures
            r@ == display(self),
    {
        if self.is_nan() {
            return "NaN".to_string();
        }
        if self.is_infinite() {
            return if self.is_negative() {
                "-inf".to_string()
            } else {
                "inf".to_string()
            };
        }
        let (c, p) = shortest(self.magnitude());
        let body = positional_text(&c, p);
        if self.is_negative() {
            cat2("-", body.as_str())
        } else {
            body
        }
    }
}

fn scientific_text(c: &Natural, p: i128) -> (r: String)
    requires
        -1074 <= p <= 0xffff_ffff_ffff_ffff,
    ensures
        r@ == scientific(c@, p as int),
{
    let digits = chars_of(natural_text(c).as_str());
    proof {
        lemma_decimal(c@);
    }
    let first = slice(&digits, 0, 1);
    assert(first@ == digits@.take(1));
    let mut out = first;
    if digits.len() > 1 {
        out.append(".");
        out.append(slice(&digits, 1, digits.len()).as_str());
        assert(digits@.subrange(1, digits@.len() as int) == digits@.skip(1));
    }
    out.append("e");
    let e: i128 = p + (digits.len() as i128 - 1);
    let exponent = if e < 0 {
        cat2("-", natural_text(&Natural::from_u128((-e) as u128)).as_str())
    } else {
        natural_text(&Natural::from_u128(e as u128))
    };
    out.append(exponent.as_str());
    out
}

impl Number {
    pub fn debug(self) -> (r: String)
        ensures
            r@ == debug(self),
    {
        let m = self.magnitude();
        if m >= INFINITE {
            return self.display();
        }
        let tiny = magnitude_near(&Natural::from_u64(1), -4);
        let huge = magnitude_near(&Natural::from_u64(1), 16);
        let (c, p) = shortest(m);
        let body = if (m > 0 && m < tiny) || m >= huge {
            scientific_text(&c, p)
        } else if p >= 0 {
            cat2(positional_text(&c, p).as_str(), ".0")
        } else {
            positional_text(&c, p)
        };
        if self.is_negative() {
            cat2("-", body.as_str())
        } else {
            body
        }
    }
}

// ---------------------------------------------------------------------------
// Reading back what was written
// ---------------------------------------------------------------------------

pub proof fn lemma_decimal(n: nat)
    ensures
        decimal(n).len() >= 1,
        all_digits(decimal(n)),
        digits_value(decimal(n)) == n,
    decreases n,
{
    if n >= 10 {
        lemma_decimal(n / 10);
        let d = decimal(n / 10);
        let t = d.push(crate::text::digit_char((n % 10) as int));
        assert(t.drop_last() == d);
        assert forall|i: int| 0 <= i < t.len() implies crate::text::is_digit(#[trigger] t[i]) by {
            if i < d.len() {
                assert(crate::text::is_digit(d[i]));
            }
        }
    } else {
        let t = seq![crate::text::digit_char(n as int)];
        assert(t.drop_last() == Seq::<char>::empty());
        assert(digits_value(Seq::<char>::empty()) == 0);
    }
}

pub proof fn lemma_decimal_length(n: nat, k: nat)
    requires
        n < ten_to(k),
        k >= 1,
    ensures
        decimal(n).len() <= k,
    decreases k,
{
    if n >= 10 {
        if k == 1 {
            assert(ten_to(1) == 10 * ten_to(0));
            assert(false);
        }
        lemma_decimal_length(n / 10, (k - 1) as nat);
    }
}

pub proof fn lemma_digits_join(a: Seq<char>, b: Seq<char>)
    ensures
        digits_value(a + b) == digits_value(a) * ten_to(b.len()) + digits_value(b),
    decreases b.len(),
{
    if b.len() == 0 {
        assert(a + b == a);
        assert(digits_value(a) * 1 == digits_value(a));
    } else {
        lemma_digits_join(a, b.drop_last());
        assert((a + b).drop_last() == a + b.drop_last());
        assert((a + b).last() == b.last());
        let x = digits_value(a);
        let t = ten_to((b.len() - 1) as nat);
        assert(10 * (x * t) == x * (10 * t)) by (nonlinear_arith);
    }
}

proof fn lemma_zeros(n: nat)
    ensures
        digits_value(Seq::new(n, |i: int| '0')) == 0,
    decreases n,
{
    if n > 0 {
        lemma_zeros((n - 1) as nat);
        assert(Seq::new(n, |i: int| '0').drop_last() == Seq::new((n - 1) as nat, |i: int| '0'));
    }
}

proof fn lemma_padded(n: nat, k: nat)
    requires
        n < ten_to(k),
        k >= 1,
    ensures
        zero_padded(decimal(n), k).len() == k,
        all_digits(zero_padded(decimal(n), k)),
        digits_value(zero_padded(decimal(n), k)) == n,
{
    lemma_decimal(n);
    lemma_decimal_length(n, k);
    let d = decimal(n);
    let z = Seq::new((k - d.len()) as nat, |i: int| '0');
    lemma_zeros((k - d.len()) as nat);
    lemma_digits_join(z, d);
    assert(0nat * ten_to(d.len()) == 0) by (nonlinear_arith);
    let t = zero_padded(d, k);
    assert(t == z + d);
    assert forall|i: int| 0 <= i < t.len() implies crate::text::is_digit(#[trigger] t[i]) by {
        if i >= z.len() {
            assert(crate::text::is_digit(d[i - z.len()]));
        }
    }
}

proof fn lemma_run_of_digits(s: Seq<char>, i: int, j: int)
    requires
        0 <= i <= j <= s.len(),
        forall|h: int| i <= h < j ==> crate::text::is_digit(#[trigger] s[h]),
        j < s.len() ==> !crate::text::is_digit(s[j]),
    ensures
        span(s, i, Class::Digit) == j,
    decreases j - i,
{
    if i < j {
        assert(crate::text::is_digit(s[i]));
        lemma_run_of_digits(s, i + 1, j);
    }
}

/// A count written out reads as a decimal of the same magnitude.
pub proof fn lemma_positional_parses(c: nat, p: int)
    ensures
        positional(c, p).len() >= 1,
        crate::text::is_digit(positional(c, p)[0]),
        parse_decimal(positional(c, p)) matches Some((d, e)) && decimal_magnitude(d, e)
            == decimal_magnitude(c, p),
{
    let s = positional(c, p);
    if p >= 0 {
        let n = c * ten_to(p as nat);
        lemma_decimal(n);
        assert(crate::text::is_digit(s[0]));
        lemma_run_of_digits(s, 0, s.len() as int);
        assert(s.take(s.len() as int) + Seq::empty() == s);
        assert(s.skip(s.len() as int).len() == 0);
        assert(n * ten_to(0) * one() == n * one()) by (nonlinear_arith)
            requires
                ten_to(0) == 1,
        ;
    } else {
        let k = (-p) as nat;
        lemma_ten_to(k);
        let a = decimal(c / ten_to(k));
        let b = zero_padded(decimal(c % ten_to(k)), k);
        reveal_strlit(".");
        lemma_decimal(c / ten_to(k));
        lemma_padded(c % ten_to(k), k);
        assert(s == a + "."@ + b);
        assert forall|h: int| 0 <= h < a.len() implies crate::text::is_digit(#[trigger] s[h]) by {
            assert(crate::text::is_digit(a[h]));
        }
        assert(s[a.len() as int] == '.');
        lemma_run_of_digits(s, 0, a.len() as int);
        assert forall|h: int| a.len() + 1 <= h < s.len() implies crate::text::is_digit(
            #[trigger] s[h],
        ) by {
            assert(crate::text::is_digit(b[h - a.len() - 1]));
        }
        lemma_run_of_digits(s, a.len() as int + 1, s.len() as int);
        assert(s.take(a.len() as int) == a);
        assert(s.subrange(a.len() as int + 1, s.len() as int) == b);
        assert(s.skip(s.len() as int).len() == 0);
        lemma_digits_join(a, b);
        vstd::arithmetic::div_mod::lemma_fundamental_div_mod(c as int, ten_to(k) as int);
        let q = c / ten_to(k);
        let t = ten_to(k);
        assert(q * t == t * q) by (nonlinear_arith);
        assert(crate::text::is_digit(s[0]));
    }
}

pub proof fn lemma_nearest_scaled(num: nat, den: nat, k: nat)
    requires
        den > 0,
        k > 0,
    ensures
        crate::number::nearest(k * num, k * den) == crate::number::nearest(num, den),
{
    let q = num / den;
    let r = num % den;
    vstd::arithmetic::div_mod::lemma_fundamental_div_mod(num as int, den as int);
    assert(k * num == q * (k * den) + k * r) by (nonlinear_arith)
        requires
            num == den * q + r,
    ;
    assert(k * r < k * den) by (nonlinear_arith)
        requires
            r < den,
            k > 0,
    ;
    vstd::arithmetic::div_mod::lemma_fundamental_div_mod_converse(
        (k * num) as int,
        (k * den) as int,
        q as int,
        (k * r) as int,
    );
    assert(2 * (k * r) < k * den <==> 2 * r < den) by (nonlinear_arith)
        requires
            k > 0,
    ;
    assert(2 * (k * r) > k * den <==> 2 * r > den) by (nonlinear_arith)
        requires
            k > 0,
    ;
}

proof fn lemma_scale_scaled(num: nat, den: nat, k: nat, s: nat)
    requires
        den > 0,
        k > 0,
    ensures
        crate::number::scale_from(k * num, k * den, s) == crate::number::scale_from(num, den, s),
    decreases crate::number::excess(num, den * pow2(53 + s)),
{
    let p = pow2(53 + s);
    assert((k * den) * p == k * (den * p)) by (nonlinear_arith);
    assert(k * num < k * (den * p) <==> num < den * p) by (nonlinear_arith)
        requires
            k > 0,
    ;
    assert(k * den > 0) by (nonlinear_arith)
        requires
            k > 0,
            den > 0,
    ;
    crate::number::lemma_doubled(den, s);
    if num >= den * p {
        lemma_scale_scaled(num, den, k, s + 1);
    }
}

/// A ratio rounds as any multiple of its two sides does.
pub proof fn lemma_rounded_scaled(num: nat, den: nat, k: nat)
    requires
        den > 0,
        k > 0,
    ensures
        rounded(k * num, k * den) == rounded(num, den),
{
    lemma_scale_scaled(num, den, k, 0);
    let s = crate::number::scale_from(num, den, 0);
    vstd::arithmetic::power2::lemma_pow2_pos(s);
    let p = pow2(s);
    assert((k * den) * p == k * (den * p)) by (nonlinear_arith);
    assert(den * p > 0) by (nonlinear_arith)
        requires
            den > 0,
            p > 0,
    ;
    lemma_nearest_scaled(num, den * p, k);
}

/// A finite magnitude put in units and rounded is the same magnitude.
pub proof fn law_units_round_back(m: nat)
    requires
        m < INFINITE,
    ensures
        rounded(units(m), 1) == m,
{
    let s = crate::number::scale(m);
    let c = crate::number::significand(m);
    let u = units(m);
    let two_52 = crate::number::TWO_52 as nat;
    vstd::arithmetic::power2::lemma2_to64();
    vstd::arithmetic::power2::lemma2_to64_rest();
    vstd::arithmetic::power2::lemma_pow2_pos(s);
    vstd::arithmetic::power2::lemma_pow2_adds(53, s);
    vstd::arithmetic::power2::lemma_pow2_adds(52, s);
    let p = pow2(s);
    assert(c < 2 * two_52);
    assert(s > 0 ==> c >= two_52);
    assert(u < 1 * pow2(53 + s)) by (nonlinear_arith)
        requires
            u == c * p,
            c < 2 * two_52,
            pow2(53 + s) == (2 * two_52) * p,
            p > 0,
    ;
    if s > 0 {
        assert(u >= 1 * pow2((52 + s) as nat)) by (nonlinear_arith)
            requires
                u == c * p,
                c >= two_52,
                pow2((52 + s) as nat) == two_52 * p,
        ;
    }
    crate::number::lemma_scale_from(u, 1, 0, s);
    vstd::arithmetic::div_mod::lemma_fundamental_div_mod_converse(u as int, p as int, c as int, 0);
    assert(1 * p == p);
}

/// Every finite magnitude is a whole count of tens to the -1074.
proof fn lemma_exact_place(m: nat)
    requires
        m < INFINITE,
    ensures
        enough(m, -1074),
{
    let k = 1074nat;
    let u = units(m);
    let five = vstd::arithmetic::power::pow(5, k) as nat;
    lemma_ten_is_two_fives(k);
    vstd::arithmetic::power::lemma_pow_positive(5, k);
    vstd::arithmetic::power2::lemma_pow2_pos(k);
    let c = u * five;
    let o = one();
    assert(u * ten_to(k) == c * o) by (nonlinear_arith)
        requires
            ten_to(k) == five * o,
            c == u * five,
    ;
    vstd::arithmetic::div_mod::lemma_fundamental_div_mod_converse(
        (u * ten_to(k)) as int,
        o as int,
        c as int,
        0,
    );
    assert(count_below(m, -1074) == c);
    lemma_ten_to(k);
    lemma_rounded_scaled(u, 1, ten_to(k));
    assert(ten_to(k) * 1 == ten_to(k));
    assert(ten_to(k) * u == c * o) by (nonlinear_arith)
        requires
            u * ten_to(k) == c * o,
    ;
    law_units_round_back(m);
}

proof fn lemma_ten_is_two_fives(k: nat)
    ensures
        ten_to(k) == vstd::arithmetic::power::pow(5, k) * pow2(k),
    decreases k,
{
    if k == 0 {
        vstd::arithmetic::power::lemma_pow0(5);
        vstd::arithmetic::power2::lemma2_to64();
    } else {
        lemma_ten_is_two_fives((k - 1) as nat);
        vstd::arithmetic::power2::lemma_pow2_unfold(k);
        vstd::arithmetic::power::lemma_pow_adds(5, 1, (k - 1) as nat);
        vstd::arithmetic::power::lemma_pow1(5);
        let f = vstd::arithmetic::power::pow(5, (k - 1) as nat);
        let t = pow2((k - 1) as nat);
        assert(10 * (f * t) == (5 * f) * (2 * t)) by (nonlinear_arith);
    }
}

proof fn lemma_place_is_enough(m: nat, p: int)
    requires
        m < INFINITE,
        p >= -1074,
    ensures
        enough(m, place_from(m, p)),
    decreases p + 1074,
{
    if p > -1074 && !enough(m, p) {
        lemma_place_is_enough(m, p - 1);
    } else if p == -1074 {
        lemma_exact_place(m);
    }
}

/// A decimal after a sign or none reads as its magnitude under that sign.
pub proof fn lemma_signed_parses(body: Seq<char>, negative: bool)
    requires
        body.len() >= 1,
        crate::text::is_digit(body[0]),
        parse_decimal(body) is Some,
    ensures
        parse_number(if negative {
            "-"@ + body
        } else {
            body
        }) == Some(
            with_sign(
                negative,
                decimal_magnitude((parse_decimal(body)->0).0, (parse_decimal(body)->0).1),
            ),
        ),
{
    reveal_strlit("-");
    reveal_strlit("inf");
    reveal_strlit("infinity");
    reveal_strlit("nan");
    let s = if negative {
        "-"@ + body
    } else {
        body
    };
    if negative {
        assert(s.skip(1) == body);
    }
    assert(!is_letter_of(body[0], "inf"@[0]));
    assert(!is_letter_of(body[0], "infinity"@[0]));
    assert(!is_letter_of(body[0], "nan"@[0]));
}

/// What is written of a finite number reads back as that number.
pub proof fn law_display_reads_back(x: Number)
    requires
        is_finite(x),
    ensures
        parse_number(display(x)) == Some(x),
{
    let m = magnitude(x);
    let start = decimal(units(m) / one()).len() as int;
    lemma_place_is_enough(m, start);
    let c = last_count(m);
    let p = last_place(m);
    assert(reads_back(m, c, p));
    lemma_positional_parses(c, p);
    lemma_signed_parses(positional(c, p), is_negative(x));
    crate::number::lemma_magnitude(x);
}

/// A count in decimal reads as the number it is taken for.
pub proof fn lemma_count_parses(k: nat)
    ensures
        decimal(k).len() >= 1,
        all_digits(decimal(k)),
        parse_number(decimal(k)) == Some(of_count(k)),
{
    lemma_decimal(k);
    assert(ten_to(0) == 1);
    assert(k * 1 == k);
    lemma_positional_parses(k, 0);
    lemma_signed_parses(positional(k, 0), false);
}

} // verus!
