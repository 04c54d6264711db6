//! Arithmetic gives the nearest number.

use crate::number::{
    is_finite, is_negative, is_zero, lemma_magnitude, lemma_scale_chosen, lemma_with_sign,
    magnitude, nearest, of_units, one, product, quotient, rounded, scale, scale_from,
    signed_units, significand, sum, units, with_sign, Number, INFINITE, TWO_52,
};
use vstd::arithmetic::power2::pow2;
use vstd::prelude::*;

verus! {

/// How far two values are apart.
pub open spec fn gap(a: int, b: int) -> int {
    if a < b {
        b - a
    } else {
        a - b
    }
}

proof fn lemma_nearest_multiple(num: nat, d: nat, k: nat)
    requires
        d > 0,
    ensures
        gap(num as int, (nearest(num, d) * d) as int) <= gap(num as int, (k * d) as int),
{
    let q = num / d;
    let r = num % d;
    vstd::arithmetic::div_mod::lemma_fundamental_div_mod(num as int, d as int);
    assert(num == q * d + r) by (nonlinear_arith)
        requires
            num == d * q + r,
    ;
    assert((q + 1) * d == q * d + d) by (nonlinear_arith);
    if k <= q {
        assert(k * d <= q * d) by (nonlinear_arith)
            requires
                k <= q,
        ;
    } else {
        assert(k * d >= (q + 1) * d) by (nonlinear_arith)
            requires
                k >= q + 1,
        ;
    }
    assert(nearest(num, d) == q || nearest(num, d) == q + 1);
}

/// A magnitude by its scale and its leading digits.
proof fn lemma_units_of(s: nat, q: nat)
    requires
        q <= 2 * TWO_52,
        s > 0 ==> q >= TWO_52,
    ensures
        units((s * TWO_52 + q) as nat) == q * pow2(s),
{
    let two = TWO_52 as nat;
    let m = (s * two + q) as nat;
    vstd::arithmetic::power2::lemma2_to64();
    vstd::arithmetic::power2::lemma2_to64_rest();
    if q == 2 * two {
        assert(m == (s + 2) * two) by (nonlinear_arith)
            requires
                m == s * two + q,
                q == 2 * two,
        ;
        vstd::arithmetic::div_mod::lemma_div_by_multiple((s + 2) as int, two as int);
        assert(scale(m) == s + 1);
        assert((s + 2) * two - (s + 1) * two == two) by (nonlinear_arith);
        vstd::arithmetic::power2::lemma_pow2_unfold(s + 1);
        assert(two * (2 * pow2(s)) == q * pow2(s)) by (nonlinear_arith)
            requires
                q == 2 * two,
        ;
    } else if q >= two {
        assert(m == (s + 1) * two + (q - two)) by (nonlinear_arith)
            requires
                m == s * two + q,
        ;
        vstd::arithmetic::div_mod::lemma_fundamental_div_mod_converse(
            m as int,
            two as int,
            (s + 1) as int,
            q - two,
        );
        assert(scale(m) == s);
    } else {
        assert(s * two == 0);
        assert(m / two == 0);
        assert(scale(m) == 0);
    }
}

/// No magnitude is nearer to a ratio than the one it is rounded to.
#[verifier::rlimit(40)]
proof fn lemma_rounded_is_nearest(num: nat, den: nat, m: nat)
    requires
        den > 0,
        rounded(num, den) < INFINITE,
        m < INFINITE,
    ensures
        gap(num as int, (units(rounded(num, den)) * den) as int) <= gap(
            num as int,
            (units(m) * den) as int,
        ),
{
    let s = scale_from(num, den, 0);
    let two = TWO_52 as nat;
    let p = pow2(s);
    let d = den * p;
    let q = nearest(num, d);
    vstd::arithmetic::power2::lemma2_to64();
    vstd::arithmetic::power2::lemma2_to64_rest();
    vstd::arithmetic::power2::lemma_pow2_pos(s);
    vstd::arithmetic::power2::lemma_pow2_adds(53, s);
    vstd::arithmetic::power2::lemma_pow2_adds(52, s);
    lemma_scale_chosen(num, den, 0);
    assert(d > 0) by (nonlinear_arith)
        requires
            d == den * p,
            den > 0,
            p > 0,
    ;
    assert(den * (2 * two * p) == (2 * two) * d && den * (two * p) == two * d) by (nonlinear_arith)
        requires
            d == den * p,
    ;
    assert(num < (2 * two) * d);
    assert(s > 0 ==> num >= two * d);
    lemma_quotient_bounds(num, d, two, s > 0);
    lemma_units_of(s, q);
    assert((q * p) * den == q * d) by (nonlinear_arith)
        requires
            d == den * p,
    ;
    lemma_other(num, den, s, m);
}

proof fn lemma_quotient_bounds(num: nat, d: nat, two: nat, high: bool)
    requires
        d > 0,
        num < (2 * two) * d,
        high ==> num >= two * d,
    ensures
        nearest(num, d) <= 2 * two,
        high ==> nearest(num, d) >= two,
{
    let q = num / d;
    vstd::arithmetic::div_mod::lemma_fundamental_div_mod(num as int, d as int);
    assert(q < 2 * two) by (nonlinear_arith)
        requires
            num == d * q + num % d,
            num % d >= 0,
            num < (2 * two) * d,
            d > 0,
    ;
    if high {
        assert(q >= two) by (nonlinear_arith)
            requires
                num == d * q + num % d,
                num % d < d,
                num >= two * d,
                d > 0,
        ;
    }
}

proof fn lemma_other(num: nat, den: nat, s: nat, m: nat)
    requires
        den > 0,
        m < INFINITE,
        s > 0 ==> num >= TWO_52 * (den * pow2(s)),
    ensures
        gap(num as int, (nearest(num, den * pow2(s)) * (den * pow2(s))) as int) <= gap(
            num as int,
            (units(m) * den) as int,
        ),
{
    let two = TWO_52 as nat;
    let p = pow2(s);
    let d = den * p;
    let c = significand(m);
    let e = scale(m);
    vstd::arithmetic::power2::lemma2_to64();
    vstd::arithmetic::power2::lemma2_to64_rest();
    vstd::arithmetic::power2::lemma_pow2_pos(s);
    vstd::arithmetic::power2::lemma_pow2_pos(e);
    assert(d > 0) by (nonlinear_arith)
        requires
            d == den * p,
            den > 0,
            p > 0,
    ;
    if e >= s {
        let x = pow2((e - s) as nat);
        vstd::arithmetic::power2::lemma_pow2_adds((e - s) as nat, s);
        assert(units(m) == c * (x * p));
        assert((c * (x * p)) * den == (c * x) * d) by (nonlinear_arith)
            requires
                d == den * p,
        ;
        lemma_nearest_multiple(num, d, c * x);
    } else {
        lemma_nearest_multiple(num, d, two);
        vstd::arithmetic::div_mod::lemma_fundamental_div_mod(m as int, two as int);
        assert(c < 2 * two) by (nonlinear_arith)
            requires
                two > 0,
                m == two * (m / two) + m % two,
                0 <= m % two < two,
                e == (if m / two >= 1 {
                    (m / two - 1) as nat
                } else {
                    0
                }),
                c == (m - e * two) as nat,
        ;
        let y = pow2(e);
        vstd::arithmetic::power2::lemma_pow2_unfold(e + 1);
        if e + 1 < s {
            vstd::arithmetic::power2::lemma_pow2_strictly_increases(e + 1, s);
        }
        assert(2 * y <= p);
        assert((c * y) * den <= two * d) by (nonlinear_arith)
            requires
                c < 2 * two,
                2 * y <= p,
                d == den * p,
        ;
    }
}

proof fn lemma_zero()
    ensures
        units(0) == 0,
{
    assert(significand(0) == 0);
    assert(0 * pow2(scale(0)) == 0);
}

/// The sum of two numbers is the nearest to what they come to together: no
/// other number is nearer.
pub proof fn law_sums_are_nearest(x: Number, y: Number, z: Number)
    requires
        is_finite(x),
        is_finite(y),
        is_finite(z),
        is_finite(sum(x, y)),
    ensures
        gap(signed_units(x) + signed_units(y), signed_units(sum(x, y))) <= gap(
            signed_units(x) + signed_units(y),
            signed_units(z),
        ),
{
    let u = signed_units(x) + signed_units(y);
    lemma_zero();
    lemma_magnitude(x);
    lemma_magnitude(y);
    lemma_magnitude(z);
    let n = (if u < 0 {
        -u
    } else {
        u
    }) as nat;
    if u == 0 {
        lemma_with_sign(is_negative(x) && is_negative(y), 0);
    } else {
        let r = rounded(n, 1);
        lemma_with_sign(u < 0, r);
        assert(sum(x, y) == of_units(u));
        assert(r < INFINITE);
        lemma_rounded_is_nearest(n, 1, magnitude(z));
        lemma_rounded_is_nearest(n, 1, 0);
    }
}

/// The product of two numbers is the nearest to what they make.
pub proof fn law_products_are_nearest(x: Number, y: Number, z: Number)
    requires
        is_finite(x),
        is_finite(y),
        is_finite(z),
        is_finite(product(x, y)),
    ensures
        gap(signed_units(x) * signed_units(y), signed_units(product(x, y)) * one()) <= gap(
            signed_units(x) * signed_units(y),
            signed_units(z) * one(),
        ),
{
    let (a, b) = (units(magnitude(x)), units(magnitude(y)));
    let w = one();
    let n = a * b;
    let negative = is_negative(x) != is_negative(y);
    lemma_zero();
    vstd::arithmetic::power2::lemma_pow2_pos(1074);
    lemma_magnitude(x);
    lemma_magnitude(y);
    lemma_magnitude(z);
    let r = rounded(n, w);
    lemma_with_sign(negative, r);
    assert(product(x, y) == with_sign(negative, r));
    assert(r < INFINITE);
    lemma_rounded_is_nearest(n, w, magnitude(z));
    lemma_rounded_is_nearest(n, w, 0);
    let (p, q) = (signed_units(x), signed_units(y));
    assert(p * q == (if negative {
        -(n as int)
    } else {
        n as int
    })) by (nonlinear_arith)
        requires
            n == a * b,
            p == (if is_negative(x) {
                -(a as int)
            } else {
                a as int
            }),
            q == (if is_negative(y) {
                -(b as int)
            } else {
                b as int
            }),
            negative == (is_negative(x) != is_negative(y)),
    ;
    lemma_signed_times(units(r), w, negative);
    lemma_signed_times(units(magnitude(z)), w, is_negative(z));
}

proof fn lemma_signed_times(u: nat, w: nat, negative: bool)
    ensures
        (if negative {
            -(u as int)
        } else {
            u as int
        }) * w == (if negative {
            -((u * w) as int)
        } else {
            (u * w) as int
        }),
        u * w >= 0,
{
    assert(-(u as int) * w == -((u * w) as int)) by (nonlinear_arith);
}

/// The quotient of two numbers is the one that comes nearest to the first
/// when it is multiplied by the second.
pub proof fn law_quotients_are_nearest(x: Number, y: Number, z: Number)
    requires
        is_finite(x),
        is_finite(y),
        !is_zero(y),
        is_finite(z),
        is_finite(quotient(x, y)),
    ensures
        gap(signed_units(x) * one(), signed_units(quotient(x, y)) * signed_units(y)) <= gap(
            signed_units(x) * one(),
            signed_units(z) * signed_units(y),
        ),
{
    let (a, b) = (units(magnitude(x)), units(magnitude(y)));
    let w = one();
    let n = a * w;
    let negative = is_negative(x) != is_negative(y);
    lemma_zero();
    lemma_magnitude(x);
    lemma_magnitude(y);
    lemma_magnitude(z);
    crate::number::lemma_units_zero(magnitude(y));
    let r = rounded(n, b);
    lemma_with_sign(negative, r);
    assert(quotient(x, y) == with_sign(negative, r));
    assert(r < INFINITE);
    lemma_rounded_is_nearest(n, b, magnitude(z));
    lemma_rounded_is_nearest(n, b, 0);
    lemma_signed_times(a, w, is_negative(x));
    lemma_signed_product(units(r), negative, b, is_negative(y));
    lemma_signed_product(units(magnitude(z)), is_negative(z), b, is_negative(y));
}

proof fn lemma_signed_product(u: nat, first: bool, b: nat, second: bool)
    ensures
        (if first {
            -(u as int)
        } else {
            u as int
        }) * (if second {
            -(b as int)
        } else {
            b as int
        }) == (if first != second {
            -((u * b) as int)
        } else {
            (u * b) as int
        }),
        u * b >= 0,
{
    assert(-(u as int) * -(b as int) == (u * b) as int) by (nonlinear_arith);
    assert(-(u as int) * b == -((u * b) as int)) by (nonlinear_arith);
    assert((u as int) * -(b as int) == -((u * b) as int)) by (nonlinear_arith);
}

} // verus!
