//! Logarithms, exponentials and powers.
//!
//! A whole power is exact and rounded once. The rest is computed in fixed
//! point with 192 bits after the point: the logarithm by the series of the
//! inverse hyperbolic tangent, the exponential by its Taylor series, each
//! summed until its terms vanish.

use crate::number::natural::Natural;
use crate::number::{
    in_units, is_finite, is_infinite, is_nan, is_negative, is_zero, less, magnitude, not_a_number,
    one, one_in_units, round, rounded, signed, truncated, units, with_sign, Number, INFINITE, ONE,
};
use vstd::arithmetic::power2::pow2;
use vstd::prelude::*;

verus! {

/// The number one in fixed point.
pub open spec fn fixed_one() -> nat {
    pow2(192)
}

/// A product in fixed point.
pub open spec fn fixed_product(a: nat, b: nat) -> nat {
    a * b / fixed_one()
}

pub proof fn lemma_fixed_product(a: nat, b: nat)
    requires
        b < fixed_one(),
    ensures
        a > 0 ==> fixed_product(a, b) < a,
        fixed_product(a, b) <= a,
{
    vstd::arithmetic::power2::lemma_pow2_pos(192);
    let f = fixed_one();
    assert(a > 0 ==> a * b < a * f) by (nonlinear_arith)
        requires
            b < f,
    ;
    assert(a == 0 ==> a * b == 0) by (nonlinear_arith);
    vstd::arithmetic::div_mod::lemma_fundamental_div_mod((a * b) as int, f as int);
    let q = a * b / f;
    assert(a > 0 ==> q < a) by (nonlinear_arith)
        requires
            a * b >= f * q,
            a > 0 ==> a * b < a * f,
    ;
    assert(a == 0 ==> q == 0) by (nonlinear_arith)
        requires
            a == 0 ==> a * b == 0,
            a * b >= f * q,
            f > 0,
    ;
}

/// The terms of the series of the inverse hyperbolic tangent from the one
/// of power `2j + 1` on, where `term` is that power and `square` the square
/// of the argument.
pub open spec fn tangent_terms(term: nat, square: nat, j: nat) -> nat
    decreases term,
{
    if term == 0 || square >= fixed_one() {
        0
    } else {
        proof {
            lemma_fixed_product(term, square);
        }
        term / (2 * j + 1) + tangent_terms(fixed_product(term, square), square, j + 1)
    }
}

/// The logarithm of `num / den`, at least one and below two.
pub open spec fn ratio_log(num: nat, den: nat) -> nat {
    let z = ((num - den) * fixed_one()) as nat / (num + den);
    2 * tangent_terms(z, fixed_product(z, z), 0)
}

pub open spec fn log_two() -> nat {
    ratio_log(2, 1)
}

/// The place of the highest bit of a number.
pub open spec fn top_bit(u: nat) -> nat {
    choose|b: nat| is_top_bit(b, u)
}

pub open spec fn is_top_bit(b: nat, u: nat) -> bool {
    pow2(b) <= u < 2 * pow2(b)
}

/// The natural logarithm of a positive magnitude of `u` units.
pub open spec fn units_log(u: nat) -> int {
    let b = top_bit(u);
    (b - 1074) * log_two() + ratio_log(u, pow2(b))
}

/// The terms of the exponential series of `r` from power `k` on, where
/// `term` is the one of that power.
pub open spec fn exponential_terms(term: nat, r: nat, k: nat) -> nat
    decreases term,
{
    if term == 0 || r >= fixed_one() {
        term
    } else {
        let next = fixed_product(term, r) / (k + 1);
        proof {
            lemma_fixed_product(term, r);
            lemma_quotient_at_most(fixed_product(term, r), k + 1);
        }
        term + exponential_terms(next, r, k + 1)
    }
}

pub proof fn lemma_quotient_at_most(a: nat, b: nat)
    requires
        b > 0,
    ensures
        a / b <= a,
{
    vstd::arithmetic::div_mod::lemma_div_nonincreasing(a as int, b as int);
}

/// The magnitude of the exponential of a number in fixed point. Beyond a
/// thousand it is more than any finite number, or less than all.
pub open spec fn exponential_magnitude(negative: bool, y: nat) -> nat {
    let q = y / log_two();
    let m = y % log_two();
    if y > 1000 * fixed_one() {
        if negative {
            0
        } else {
            INFINITE as nat
        }
    } else {
        // y is n times the logarithm of two, and r
        let (n, r) = if !negative {
            (q as int, m)
        } else if m == 0 {
            (-(q as int), 0)
        } else {
            (-(q as int) - 1, (log_two() - m) as nat)
        };
        let e = exponential_terms(fixed_one(), r, 0);
        if n + 1074 >= 0 {
            rounded(e * pow2((n + 1074) as nat), fixed_one())
        } else {
            rounded(e, fixed_one() * pow2((-n - 1074) as nat))
        }
    }
}

pub open spec fn absolute_nat(n: int) -> nat {
    (if n < 0 {
        -n
    } else {
        n
    }) as nat
}

/// The natural logarithm.
pub open spec fn natural_log(x: Number) -> Number {
    if is_nan(x) {
        not_a_number()
    } else if is_zero(x) {
        with_sign(true, INFINITE as nat)
    } else if is_negative(x) {
        not_a_number()
    } else if is_infinite(x) {
        x
    } else {
        let l = units_log(units(magnitude(x)));
        with_sign(l < 0, rounded(absolute_nat(l) * one(), fixed_one()))
    }
}

/// The logarithm to base ten.
pub open spec fn common_log(x: Number) -> Number {
    if is_nan(x) {
        not_a_number()
    } else if is_zero(x) {
        with_sign(true, INFINITE as nat)
    } else if is_negative(x) {
        not_a_number()
    } else if is_infinite(x) {
        x
    } else {
        let l = units_log(units(magnitude(x)));
        with_sign(l < 0, rounded(absolute_nat(l) * one(), absolute_nat(units_log(10 * one()))))
    }
}

pub open spec fn exponential(x: Number) -> Number {
    if is_nan(x) {
        not_a_number()
    } else if is_infinite(x) {
        if is_negative(x) {
            with_sign(false, 0)
        } else {
            x
        }
    } else {
        with_sign(
            false,
            exponential_magnitude(
                is_negative(x),
                units(magnitude(x)) * fixed_one() / one(),
            ),
        )
    }
}

/// Whether a finite number is whole.
pub open spec fn is_whole(x: Number) -> bool {
    is_finite(x) && units(magnitude(x)) % one() == 0
}

pub open spec fn is_odd(x: Number) -> bool {
    is_whole(x) && truncated(x) % 2 == 1
}

pub open spec fn natural_power(b: nat, n: nat) -> nat
    decreases n,
{
    if n == 0 {
        1
    } else {
        b * natural_power(b, (n - 1) as nat)
    }
}

/// The magnitude of a whole power of `u` units.
pub open spec fn whole_power(u: nat, negative: bool, n: nat) -> nat {
    if negative {
        rounded(natural_power(one(), n) * one(), natural_power(u, n))
    } else {
        rounded(natural_power(u, n) * one(), natural_power(one(), n))
    }
}

/// The magnitude of any other power of `u` units: the exponential of the
/// exponent times the logarithm.
pub open spec fn fractional_power(u: nat, y: Number) -> nat {
    let l = units_log(u);
    exponential_magnitude(
        (l < 0) != is_negative(y),
        absolute_nat(l) * units(magnitude(y)) / one(),
    )
}

/// `x` to the power `y`.
pub open spec fn power(x: Number, y: Number) -> Number {
    let above_one = magnitude(x) > ONE;
    if is_zero(y) || x == with_sign(false, ONE as nat) {
        with_sign(false, ONE as nat)
    } else if is_nan(x) || is_nan(y) {
        not_a_number()
    } else if is_infinite(y) {
        if magnitude(x) == ONE {
            with_sign(false, ONE as nat)
        } else if above_one == !is_negative(y) {
            with_sign(false, INFINITE as nat)
        } else {
            with_sign(false, 0)
        }
    } else if is_zero(x) || is_infinite(x) {
        with_sign(
            is_negative(x) && is_odd(y),
            if is_zero(x) == is_negative(y) {
                INFINITE as nat
            } else {
                0
            },
        )
    } else if is_negative(x) && !is_whole(y) {
        not_a_number()
    } else if is_whole(y) && truncated(y) <= 1024 {
        with_sign(
            is_negative(x) && is_odd(y),
            whole_power(units(magnitude(x)), is_negative(y), truncated(y)),
        )
    } else {
        with_sign(
            is_negative(x) && is_odd(y),
            fractional_power(units(magnitude(x)), y),
        )
    }
}

// ---------------------------------------------------------------------------
// Computing
// ---------------------------------------------------------------------------

proof fn lemma_fixed_one()
    ensures
        fixed_one() > 0,
        1 * fixed_one() == fixed_one(),
        fixed_one() >= 18,
{
    vstd::arithmetic::power2::lemma2_to64();
    vstd::arithmetic::power2::lemma_pow2_strictly_increases(5, 192);
}

fn fixed_one_natural() -> (r: Natural)
    ensures
        r@ == fixed_one(),
        r@ > 0,
{
    proof {
        lemma_fixed_one();
    }
    Natural::from_u64(1).shifted(192)
}

fn fixed_times(a: &Natural, b: &Natural) -> (r: Natural)
    ensures
        r@ == fixed_product(a@, b@),
{
    let (q, _) = a.times(b).divided(&fixed_one_natural());
    q
}

fn tangent_series(z: &Natural, square: &Natural) -> (r: Natural)
    ensures
        r@ == tangent_terms(z@, square@, 0),
{
    let unit = fixed_one_natural();
    if !square.less(&unit) {
        return Natural::zero();
    }
    let mut sum = Natural::zero();
    let mut term = z.copy();
    let mut divisor = Natural::from_u64(1);
    let ghost mut j: nat = 0;
    while !term.is_zero()
        invariant
            square@ < fixed_one(),
            divisor@ == 2 * j + 1,
            sum@ + tangent_terms(term@, square@, j) == tangent_terms(z@, square@, 0),
        decreases term@,
    {
        proof {
            lemma_fixed_product(term@, square@);
        }
        let (part, _) = term.divided(&divisor);
        sum = sum.plus(&part);
        term = fixed_times(&term, square);
        divisor = divisor.plus(&Natural::from_u64(2));
        proof {
            j = j + 1;
        }
    }
    sum
}

fn log_of_ratio(num: &Natural, den: &Natural) -> (r: Natural)
    requires
        den@ <= num@,
        den@ > 0,
    ensures
        r@ == ratio_log(num@, den@),
{
    let top = num.minus(den).times(&fixed_one_natural());
    let (z, _) = top.divided(&num.plus(den));
    let square = fixed_times(&z, &z);
    tangent_series(&z, &square).times_plus(2, 0)
}

proof fn lemma_tangent_bound(term: nat, square: nat, j: nat)
    requires
        9 * square <= fixed_one(),
    ensures
        8 * tangent_terms(term, square, j) <= 9 * term,
    decreases term,
{
    lemma_fixed_one();
    if term > 0 {
        lemma_fixed_product(term, square);
        let next = fixed_product(term, square);
        lemma_tangent_bound(next, square, j + 1);
        lemma_quotient_at_most(term, 2 * j + 1);
        let f = fixed_one();
        vstd::arithmetic::div_mod::lemma_fundamental_div_mod((term * square) as int, f as int);
        assert(9 * next <= term) by (nonlinear_arith)
            requires
                term * square >= f * next,
                9 * square <= f,
                f > 0,
        ;
    }
}

/// The logarithm of two is above zero and below one.
proof fn lemma_log_two()
    ensures
        0 < log_two() < fixed_one(),
{
    lemma_fixed_one();
    let f = fixed_one();
    let z = f / 3;
    assert(((2 - 1) * f) as nat / (2 + 1) == z);
    let square = fixed_product(z, z);
    assert(3 * z <= f);
    assert(9 * (z * z) <= f * f) by (nonlinear_arith)
        requires
            3 * z <= f,
            z >= 0,
    ;
    vstd::arithmetic::div_mod::lemma_fundamental_div_mod((z * z) as int, f as int);
    assert(9 * square <= f) by (nonlinear_arith)
        requires
            z * z >= f * square,
            9 * (z * z) <= f * f,
            f > 0,
    ;
    lemma_tangent_bound(z, square, 0);
    assert(tangent_terms(z, square, 0) >= z / 1);
}

proof fn lemma_top_bit(b: nat, u: nat)
    requires
        is_top_bit(b, u),
    ensures
        top_bit(u) == b,
{
    let c = top_bit(u);
    if b < c {
        vstd::arithmetic::power2::lemma_pow2_unfold(b + 1);
        if b + 1 < c {
            vstd::arithmetic::power2::lemma_pow2_strictly_increases(b + 1, c);
        }
    } else if c < b {
        vstd::arithmetic::power2::lemma_pow2_unfold(c + 1);
        if c + 1 < b {
            vstd::arithmetic::power2::lemma_pow2_strictly_increases(c + 1, b);
        }
    }
}

/// A number in fixed point, with its sign apart.
struct Signed {
    negative: bool,
    size: Natural,
}

fn log_of_units(u: &Natural) -> (r: Signed)
    requires
        0 < u@ < pow2(4096),
    ensures
        r.negative == (units_log(u@) < 0),
        r.size@ == absolute_nat(units_log(u@)),
{
    let n = u.bits();
    proof {
        vstd::arithmetic::power2::lemma2_to64();
        if n == 0 {
            assert(false);
        }
        if n > 4097 {
            vstd::arithmetic::power2::lemma_pow2_strictly_increases(4096, (n - 1) as nat);
        }
        vstd::arithmetic::power2::lemma_pow2_unfold(n as nat);
        vstd::arithmetic::power2::lemma_pow2_pos((n - 1) as nat);
        lemma_top_bit((n - 1) as nat, u@);
        assert(1 * pow2((n - 1) as nat) == pow2((n - 1) as nat));
    }
    let b: usize = (n - 1) as usize;
    let unit = Natural::from_u64(1).shifted(b);
    let two = log_of_ratio(&Natural::from_u64(2), &Natural::from_u64(1));
    let rest = log_of_ratio(u, &unit);
    if b >= 1074 {
        let k: u32 = (b - 1074) as u32;
        let scaled = two.times_plus(k, 0);
        proof {
            assert((b - 1074) * log_two() == log_two() * k) by (nonlinear_arith)
                requires
                    k == b - 1074,
            ;
            assert(log_two() * k >= 0) by (nonlinear_arith);
        }
        Signed { negative: false, size: scaled.plus(&rest) }
    } else {
        let k: u32 = (1074 - b) as u32;
        let scaled = two.times_plus(k, 0);
        proof {
            assert((b - 1074) * log_two() == -(log_two() * k)) by (nonlinear_arith)
                requires
                    k == 1074 - b,
            ;
        }
        if rest.less(&scaled) {
            Signed { negative: true, size: scaled.minus(&rest) }
        } else {
            Signed { negative: false, size: rest.minus(&scaled) }
        }
    }
}

fn exponential_series(r: &Natural) -> (e: Natural)
    requires
        r@ < fixed_one(),
    ensures
        e@ == exponential_terms(fixed_one(), r@, 0),
{
    let mut sum = Natural::zero();
    let mut term = fixed_one_natural();
    let mut k = Natural::zero();
    let ghost all = exponential_terms(fixed_one(), r@, 0);
    while !term.is_zero()
        invariant
            r@ < fixed_one(),
            sum@ + exponential_terms(term@, r@, k@) == all,
        decreases term@,
    {
        proof {
            lemma_fixed_product(term@, r@);
            lemma_quotient_at_most(fixed_product(term@, r@), k@ + 1);
        }
        sum = sum.plus(&term);
        k = k.plus(&Natural::from_u64(1));
        let (next, _) = fixed_times(&term, r).divided(&k);
        term = next;
    }
    sum
}

fn exponential_of(negative: bool, y: &Natural) -> (m: u64)
    ensures
        m == exponential_magnitude(negative, y@),
        m <= INFINITE,
{
    let unit = fixed_one_natural();
    proof {
        lemma_log_two();
        lemma_fixed_one();
    }
    let bound = unit.times_plus(1000, 0);
    if bound.less(y) {
        return if negative {
            0
        } else {
            INFINITE
        };
    }
    let two = log_of_ratio(&Natural::from_u64(2), &Natural::from_u64(1));
    let (q, m) = y.divided(&two);
    proof {
        lemma_quotient_small(y@);
    }
    let whole_part = q.to_u64();
    let (n, r): (i64, Natural) = if !negative {
        (whole_part as i64, m)
    } else if m.is_zero() {
        (-(whole_part as i64), m)
    } else {
        (-(whole_part as i64) - 1, two.minus(&m))
    };
    let e = exponential_series(&r);
    if n + 1074 >= 0 {
        round(&e.shifted((n + 1074) as usize), &unit)
    } else {
        proof {
            vstd::arithmetic::power2::lemma_pow2_pos((-n - 1074) as nat);
            assert(fixed_one() * pow2((-n - 1074) as nat) > 0) by (nonlinear_arith)
                requires
                    fixed_one() > 0,
                    pow2((-n - 1074) as nat) > 0,
            ;
        }
        round(&e, &unit.shifted((-n - 1074) as usize))
    }
}

/// The logarithm of two is more than a third.
proof fn lemma_log_two_third()
    ensures
        3 * log_two() + 6 > fixed_one(),
{
    lemma_fixed_one();
    let f = fixed_one();
    let z = f / 3;
    assert(((2 - 1) * f) as nat / (2 + 1) == z);
    let square = fixed_product(z, z);
    lemma_fixed_product(z, z);
    assert(z < f);
    assert(z > 0);
    assert(tangent_terms(z, square, 0) >= z / 1);
    assert(3 * z + 3 > f);
}

proof fn lemma_quotient_small(y: nat)
    requires
        y <= 1000 * fixed_one(),
    ensures
        y / log_two() < 0x1_0000,
        log_two() > 0,
{
    lemma_log_two();
    lemma_log_two_third();
    lemma_fixed_one();
    let f = fixed_one();
    let l = log_two();
    let q = y / l;
    vstd::arithmetic::div_mod::lemma_fundamental_div_mod(y as int, l as int);
    assert(4 * l >= f) by (nonlinear_arith)
        requires
            3 * l + 6 > f,
            f >= 18,
            l > 0,
    ;
    assert(q < 0x1_0000) by (nonlinear_arith)
        requires
            y >= l * q,
            y <= 1000 * f,
            4 * l >= f,
            l > 0,
    ;
}

proof fn lemma_units_bound(m: nat)
    requires
        m < INFINITE,
    ensures
        units(m) < pow2(2100),
{
    let s = crate::number::scale(m);
    let c = crate::number::significand(m);
    vstd::arithmetic::power2::lemma2_to64_rest();
    vstd::arithmetic::power2::lemma_pow2_adds(53, s);
    vstd::arithmetic::power2::lemma_pow2_pos(s);
    let p = pow2(s);
    assert(c * p < pow2(53 + s)) by (nonlinear_arith)
        requires
            c < 0x20_0000_0000_0000,
            pow2(53 + s) == 0x20_0000_0000_0000 * p,
            p > 0,
    ;
    if 53 + s < 2100 {
        vstd::arithmetic::power2::lemma_pow2_strictly_increases(53 + s, 2100);
    }
}

fn natural_power_of(b: &Natural, n: u64) -> (r: Natural)
    ensures
        r@ == natural_power(b@, n as nat),
{
    let mut r = Natural::from_u64(1);
    for i in 0..n
        invariant
            r@ == natural_power(b@, i as nat),
    {
        r = b.times(&r);
    }
    r
}

proof fn lemma_power_product(a: nat, b: nat, n: nat)
    ensures
        natural_power(a * b, n) == natural_power(a, n) * natural_power(b, n),
    decreases n,
{
    if n > 0 {
        lemma_power_product(a, b, (n - 1) as nat);
        let x = natural_power(a, (n - 1) as nat);
        let y = natural_power(b, (n - 1) as nat);
        assert((a * b) * (x * y) == (a * x) * (b * y)) by (nonlinear_arith);
    } else {
        assert(1nat * 1nat == 1);
    }
}

proof fn lemma_power_positive(a: nat, n: nat)
    requires
        a > 0,
    ensures
        natural_power(a, n) > 0,
    decreases n,
{
    if n > 0 {
        lemma_power_positive(a, (n - 1) as nat);
        let x = natural_power(a, (n - 1) as nat);
        assert(a * x > 0) by (nonlinear_arith)
            requires
                a > 0,
                x > 0,
        ;
    }
}

/// A positive magnitude as the power of two it shares with one, and what is
/// left of it and of one.
fn reduced(u: &Natural) -> (r: (Natural, Natural, Ghost<nat>))
    requires
        u@ > 0,
    ensures
        r.2@ > 0,
        u@ == r.2@ * r.0@,
        one() == r.2@ * r.1@,
        r.0@ > 0,
        r.1@ > 0,
{
    let two = Natural::from_u64(2);
    let mut a = u.copy();
    let mut left: usize = 1074;
    let ghost mut g: nat = 1;
    proof {
        assert(1 * u@ == u@);
        assert(1 * pow2(1074) == pow2(1074));
    }
    loop
        invariant
            two@ == 2,
            g > 0,
            a@ > 0,
            u@ == g * a@,
            one() == g * pow2(left as nat),
        decreases left,
    {
        let (half, rest) = a.divided(&two);
        if left == 0 || !rest.is_zero() {
            proof {
                vstd::arithmetic::power2::lemma_pow2_pos(left as nat);
                assert(1 * pow2(left as nat) == pow2(left as nat));
            }
            let b = Natural::from_u64(1).shifted(left);
            return (a, b, Ghost(g));
        }
        proof {
            vstd::arithmetic::power2::lemma_pow2_unfold(left as nat);
            let h = half@;
            let p = pow2((left - 1) as nat);
            assert(g * (2 * h) == (2 * g) * h) by (nonlinear_arith);
            assert(g * (2 * p) == (2 * g) * p) by (nonlinear_arith);
            g = 2 * g;
        }
        a = half;
        left = left - 1;
    }
}

fn whole_power_of(u: &Natural, negative: bool, n: u64) -> (m: u64)
    requires
        u@ > 0,
    ensures
        m == whole_power(u@, negative, n as nat),
        m <= INFINITE,
{
    let (a, b, Ghost(g)) = reduced(u);
    let top = natural_power_of(&a, n);
    let bottom = natural_power_of(&b, n);
    proof {
        lemma_power_product(g, a@, n as nat);
        lemma_power_product(g, b@, n as nat);
        lemma_power_positive(g, n as nat);
        lemma_power_positive(a@, n as nat);
        lemma_power_positive(b@, n as nat);
        let k = natural_power(g, n as nat);
        let x = natural_power(a@, n as nat);
        let y = natural_power(b@, n as nat);
        let o = one();
        assert((k * x) * o == k * (x * o)) by (nonlinear_arith);
        assert((k * y) * o == k * (y * o)) by (nonlinear_arith);
        crate::number::decimal::lemma_rounded_scaled(x * o, y, k);
        crate::number::decimal::lemma_rounded_scaled(y * o, x, k);
    }
    if negative {
        round(&bottom.shifted(1074), &top)
    } else {
        round(&top.shifted(1074), &bottom)
    }
}

impl Number {
    /// The natural logarithm.
    pub fn ln(self) -> (r: Number)
        ensures
            r == natural_log(self),
    {
        if self.is_nan() {
            return Number::nan();
        }
        if self.is_zero() {
            return signed(true, INFINITE);
        }
        if self.is_negative() {
            return Number::nan();
        }
        if self.is_infinite() {
            return self;
        }
        let u = in_units(self.magnitude());
        proof {
            crate::number::lemma_units_zero(magnitude(self));
            lemma_units_bound(magnitude(self));
            vstd::arithmetic::power2::lemma_pow2_strictly_increases(2100, 4096);
        }
        let l = log_of_units(&u);
        signed(l.negative, round(&l.size.shifted(1074), &fixed_one_natural()))
    }

    /// The logarithm to base ten.
    pub fn log10(self) -> (r: Number)
        ensures
            r == common_log(self),
    {
        if self.is_nan() {
            return Number::nan();
        }
        if self.is_zero() {
            return signed(true, INFINITE);
        }
        if self.is_negative() {
            return Number::nan();
        }
        if self.is_infinite() {
            return self;
        }
        let u = in_units(self.magnitude());
        proof {
            crate::number::lemma_units_zero(magnitude(self));
            lemma_units_bound(magnitude(self));
            vstd::arithmetic::power2::lemma_pow2_strictly_increases(2100, 4096);
        }
        let l = log_of_units(&u);
        let ten = one_in_units().times_plus(10, 0);
        proof {
            let o = one();
            vstd::arithmetic::power2::lemma_pow2_adds(3, 1074);
            vstd::arithmetic::power2::lemma2_to64();
            vstd::arithmetic::power2::lemma_pow2_strictly_increases(1078, 4096);
            vstd::arithmetic::power2::lemma_pow2_unfold(1078);
            lemma_top_bit(1077, 10 * o);
            lemma_log_two();
            assert((1077 - 1074) * log_two() > 0);
        }
        let base = log_of_units(&ten);
        signed(l.negative, round(&l.size.shifted(1074), &base.size))
    }

    /// The exponential.
    pub fn exp(self) -> (r: Number)
        ensures
            r == exponential(self),
    {
        if self.is_nan() {
            return Number::nan();
        }
        if self.is_infinite() {
            return if self.is_negative() {
                Number::zero()
            } else {
                self
            };
        }
        let (y, _) = in_units(self.magnitude()).shifted(192).divided(&one_in_units());
        signed(false, exponential_of(self.is_negative(), &y))
    }

    /// The number to the power of another.
    pub fn powf(self, y: Number) -> (r: Number)
        ensures
            r == power(self, y),
    {
        let m = self.magnitude();
        if y.is_zero() || self.bits == ONE {
            return Number::one();
        }
        if self.is_nan() || y.is_nan() {
            return Number::nan();
        }
        if y.is_infinite() {
            return if m == ONE {
                Number::one()
            } else if (m > ONE) == !y.is_negative() {
                signed(false, INFINITE)
            } else {
                signed(false, 0)
            };
        }
        let unit = one_in_units();
        let exponent = in_units(y.magnitude());
        let (count, rest) = exponent.divided(&unit);
        let whole_exponent = rest.is_zero();
        let (_, parity) = count.divided(&Natural::from_u64(2));
        let odd = whole_exponent && !parity.is_zero();
        let negative = self.is_negative() && odd;
        if self.is_zero() || self.is_infinite() {
            return signed(
                negative,
                if self.is_zero() == y.is_negative() {
                    INFINITE
                } else {
                    0
                },
            );
        }
        if self.is_negative() && !whole_exponent {
            return Number::nan();
        }
        let u = in_units(m);
        proof {
            crate::number::lemma_units_zero(m as nat);
            lemma_units_bound(m as nat);
            vstd::arithmetic::power2::lemma_pow2_strictly_increases(2100, 4096);
        }
        if whole_exponent && count.less(&Natural::from_u64(1025)) {
            let n = count.to_u64();
            return signed(negative, whole_power_of(&u, y.is_negative(), n));
        }
        let l = log_of_units(&u);
        let (product, _) = l.size.times(&exponent).divided(&unit);
        signed(negative, exponential_of(l.negative != y.is_negative(), &product))
    }
}

} // verus!
